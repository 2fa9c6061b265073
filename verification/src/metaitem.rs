//! The per-item record: three current-state booleans, mutable by the
//! editor, and three capability flags fixed at construction.

use vstd::prelude::*;

verus! {

/// One item's record.  An axis whose capability flag is `false` is not
/// meaningful for the item; its state boolean then always stays `false`.
#[derive(Clone, Copy, Debug, PartialEq, Eq, Structural)]
pub struct MetaItem {
    /// Whether the player has been alerted about the item.
    pub alerted: bool,
    /// Whether the player has discovered the item.
    pub discovered: bool,
    /// Whether the player has unlocked the item.
    pub unlocked: bool,
    /// Whether the alert axis is meaningful for the item.
    pub poss_alert: bool,
    /// Whether the discover axis is meaningful for the item.
    pub poss_discover: bool,
    /// Whether the unlock axis is meaningful for the item.
    pub poss_unlock: bool,
}

impl MetaItem {
    /// The capability invariant: an inapplicable axis carries no state.
    pub open spec fn inv(self) -> bool {
        &&& !self.poss_alert ==> !self.alerted
        &&& !self.poss_discover ==> !self.discovered
        &&& !self.poss_unlock ==> !self.unlocked
    }

    /// Build a record from one optional value per axis: `None` marks the
    /// axis inapplicable, `Some(v)` applicable with state `v`.
    pub fn new(alerted: Option<bool>, discovered: Option<bool>, unlocked: Option<bool>) -> (r:
        MetaItem)
        ensures
            r.alerted == (alerted == Some(true)),
            r.discovered == (discovered == Some(true)),
            r.unlocked == (unlocked == Some(true)),
            r.poss_alert == alerted.is_some(),
            r.poss_discover == discovered.is_some(),
            r.poss_unlock == unlocked.is_some(),
            r.inv(),
    {
        MetaItem {
            alerted: alerted == Some(true),
            discovered: discovered == Some(true),
            unlocked: unlocked == Some(true),
            poss_alert: alerted.is_some(),
            poss_discover: discovered.is_some(),
            poss_unlock: unlocked.is_some(),
        }
    }

    /// Whether the alert axis is meaningful for this item.
    pub fn can_be_alerted(&self) -> (r: bool)
        ensures
            r == self.poss_alert,
    {
        self.poss_alert
    }

    /// Whether the discover axis is meaningful for this item.
    pub fn can_be_discovered(&self) -> (r: bool)
        ensures
            r == self.poss_discover,
    {
        self.poss_discover
    }

    /// Whether the unlock axis is meaningful for this item.
    pub fn can_be_unlocked(&self) -> (r: bool)
        ensures
            r == self.poss_unlock,
    {
        self.poss_unlock
    }
}

} // verus!
