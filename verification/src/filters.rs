//! Per-category search filter strings, held on behalf of the editor shell.

use vstd::prelude::*;

verus! {

/// The filter text for each item category tab.
#[derive(Debug, Clone)]
pub struct Filters {
    /// Filter for joker items.
    pub joker: String,
    /// Filter for miscellaneous items.
    pub misc: String,
    /// Filter for card items.
    pub card: String,
    /// Filter for voucher items.
    pub voucher: String,
}

impl Filters {
    /// A fresh set of filters, all empty.
    pub fn new() -> (r: Filters)
        ensures
            r.joker@ == Seq::<char>::empty(),
            r.misc@ == Seq::<char>::empty(),
            r.card@ == Seq::<char>::empty(),
            r.voucher@ == Seq::<char>::empty(),
    {
        Filters { joker: String::new(), misc: String::new(), card: String::new(), voucher: String::new() }
    }
}

} // verus!
