//! The compiled-in item catalog: every known item name with, for each of
//! the three per-item axes, whether that axis applies to the item at all
//! and, when it does, the item's baseline value for it.

use vstd::prelude::*;

use vstd::string::StringExecFns;

verus! {

broadcast use vstd::std_specs::vec::group_vec_axioms, vstd::seq::group_seq_axioms, vstd::map::group_map_axioms;

/// Whether an axis (alert, discover, unlock) is meaningful for an item, and
/// its baseline value when it is.
#[derive(Clone, Copy, Debug, PartialEq, Eq, Structural)]
pub enum Capability {
    Applicable(bool),
    NotApplicable,
}

impl Capability {
    pub open spec fn applicable_spec(self) -> bool {
        self is Applicable
    }

    /// Whether the axis applies at all.
    #[verifier::when_used_as_spec(applicable_spec)]
    pub fn applicable(self) -> (r: bool)
        ensures
            r == self.applicable_spec(),
    {
        matches!(self, Capability::Applicable(_))
    }

    pub open spec fn baseline_spec(self) -> bool {
        match self {
            Capability::Applicable(v) => v,
            Capability::NotApplicable => false,
        }
    }

    /// The baseline value of the axis; an inapplicable axis stays `false`.
    #[verifier::when_used_as_spec(baseline_spec)]
    pub fn baseline(self) -> (r: bool)
        ensures
            r == self.baseline_spec(),
    {
        match self {
            Capability::Applicable(v) => v,
            Capability::NotApplicable => false,
        }
    }
}

/// One item's three capabilities.
#[derive(Clone, Copy, Debug, PartialEq, Eq, Structural)]
pub struct CatalogDefaults {
    pub alerted: Capability,
    pub discovered: Capability,
    pub unlocked: Capability,
}

/// One catalog row: a known item name and its capabilities.
pub struct CatalogEntry {
    pub name: String,
    pub defaults: CatalogDefaults,
}

/// Shorthand for one catalog row at the specification level.
pub open spec fn row(
    name: Seq<char>,
    alerted: Capability,
    discovered: Capability,
    unlocked: Capability,
) -> (Seq<char>, CatalogDefaults) {
    (name, CatalogDefaults { alerted, discovered, unlocked })
}

/// The catalog rows.  Category is a prefix of the name: `j_` jokers, `v_`
/// vouchers, `c_` cards, `e_` editions, `b_` decks, and the miscellaneous
/// prefixes `bl_`, `tag_` and `p_`.
pub open spec fn cat_rows() -> Seq<(Seq<char>, CatalogDefaults)> {
    let ap_f = Capability::Applicable(false);
    let ap_t = Capability::Applicable(true);
    let na = Capability::NotApplicable;
    seq![
        row("b_red"@, na, ap_t, ap_t),
        row("b_blue"@, na, ap_f, ap_f),
        row("b_checkered"@, na, ap_f, ap_f),
        row("j_joker"@, ap_f, ap_t, na),
        row("j_greedy_joker"@, ap_f, ap_f, na),
        row("j_stencil"@, ap_f, ap_f, ap_f),
        row("j_banner"@, ap_f, ap_f, na),
        row("v_overstock_norm"@, ap_f, ap_f, na),
        row("v_blank"@, ap_f, ap_f, ap_f),
        row("c_empress"@, ap_f, ap_f, na),
        row("c_heirophant"@, ap_f, ap_f, na),
        row("c_planet_x"@, ap_f, ap_f, ap_f),
        row("e_foil"@, ap_f, ap_f, na),
        row("e_negative"@, ap_f, ap_f, na),
        row("bl_ox"@, ap_f, ap_t, na),
        row("tag_uncommon"@, ap_f, ap_f, na),
        row("p_arcana_normal_1"@, ap_f, ap_f, na),
    ]
}

/// The map a row sequence stands for; a later row with the same name wins.
pub open spec fn rows_map(rows: Seq<(Seq<char>, CatalogDefaults)>) -> Map<Seq<char>, CatalogDefaults>
    decreases rows.len(),
{
    if rows.len() == 0 {
        Map::empty()
    } else {
        rows_map(rows.drop_last()).insert(rows.last().0, rows.last().1)
    }
}

/// The catalog as a map from item name to its capabilities.
pub open spec fn catalog() -> Map<Seq<char>, CatalogDefaults> {
    rows_map(cat_rows())
}

/// The catalog's rows as an owned vector, row for row.
pub fn catalog_entries() -> (r: Vec<CatalogEntry>)
    ensures
        r@.len() == cat_rows().len(),
        forall|i: int|
            0 <= i < r@.len() ==> (#[trigger] r@[i].name@, r@[i].defaults) == cat_rows()[i],
{
    let mut v: Vec<CatalogEntry> = Vec::new();
    let ap_f = Capability::Applicable(false);
    let ap_t = Capability::Applicable(true);
    let na = Capability::NotApplicable;
    push_row(&mut v, "b_red", na, ap_t, ap_t);
    push_row(&mut v, "b_blue", na, ap_f, ap_f);
    push_row(&mut v, "b_checkered", na, ap_f, ap_f);
    push_row(&mut v, "j_joker", ap_f, ap_t, na);
    push_row(&mut v, "j_greedy_joker", ap_f, ap_f, na);
    push_row(&mut v, "j_stencil", ap_f, ap_f, ap_f);
    push_row(&mut v, "j_banner", ap_f, ap_f, na);
    push_row(&mut v, "v_overstock_norm", ap_f, ap_f, na);
    push_row(&mut v, "v_blank", ap_f, ap_f, ap_f);
    push_row(&mut v, "c_empress", ap_f, ap_f, na);
    push_row(&mut v, "c_heirophant", ap_f, ap_f, na);
    push_row(&mut v, "c_planet_x", ap_f, ap_f, ap_f);
    push_row(&mut v, "e_foil", ap_f, ap_f, na);
    push_row(&mut v, "e_negative", ap_f, ap_f, na);
    push_row(&mut v, "bl_ox", ap_f, ap_t, na);
    push_row(&mut v, "tag_uncommon", ap_f, ap_f, na);
    push_row(&mut v, "p_arcana_normal_1", ap_f, ap_f, na);
    v
}

fn push_row(
    v: &mut Vec<CatalogEntry>,
    name: &str,
    alerted: Capability,
    discovered: Capability,
    unlocked: Capability,
)
    ensures
        final(v)@.len() == old(v)@.len() + 1,
        final(v)@ =~= old(v)@.push(final(v)@.last()),
        final(v)@.last().name@ == name@,
        final(v)@.last().defaults == (CatalogDefaults { alerted, discovered, unlocked }),
{
    v.push(
        CatalogEntry {
            name: String::from_str(name),
            defaults: CatalogDefaults { alerted, discovered, unlocked },
        },
    );
}

/// Look a name up in the catalog.
pub fn catalog_lookup(name: &String) -> (r: Option<CatalogDefaults>)
    ensures
        match r {
            Some(d) => catalog().contains_key(name@) && catalog()[name@] == d,
            None => !catalog().contains_key(name@),
        },
{
    let entries = catalog_entries();
    let n = entries.len();
    let mut i: usize = n;
    proof {
        assert(cat_rows().take(n as int) =~= cat_rows());
    }
    loop
        invariant
            n == entries@.len(),
            n == cat_rows().len(),
            i <= n,
            forall|t: int|
                0 <= t < entries@.len() ==> (#[trigger] entries@[t].name@, entries@[t].defaults)
                    == cat_rows()[t],
            rows_map(cat_rows().take(i as int)).contains_key(name@) == catalog().contains_key(
                name@,
            ),
            rows_map(cat_rows().take(i as int)).contains_key(name@) ==> rows_map(
                cat_rows().take(i as int),
            )[name@] == catalog()[name@],
        decreases i,
    {
        if i == 0 {
            return None;
        }
        i = i - 1;
        proof {
            assert(cat_rows().take(i + 1).drop_last() =~= cat_rows().take(i as int));
            assert(cat_rows().take(i + 1).last() == cat_rows()[i as int]);
        }
        if entries[i].name == *name {
            return Some(entries[i].defaults);
        }
    }
}

} // verus!
