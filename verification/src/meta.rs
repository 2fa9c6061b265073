//! The canonical record set: a mapping from item name to `MetaItem`, the
//! reconciliation engine that merges a decoded save file with the catalog,
//! and the save path back into bytes.

use vstd::prelude::*;

use crate::assoc::{
    assoc_find, assoc_get, assoc_upsert, keys_unique, lemma_pairs_map_at, lemma_pairs_map_domain,
    pairs_map,
};
use crate::catalog::{catalog, catalog_entries, catalog_lookup, cat_rows, CatalogDefaults};
use crate::filters::Filters;
use crate::metaitem::MetaItem;
use crate::value::{entries_view, SpecKey, SpecVal, TableKey, Value};
use vstd::string::StringExecFns;

verus! {

broadcast use vstd::std_specs::vec::group_vec_axioms, vstd::seq::group_seq_axioms, vstd::map::group_map_axioms;

/// The record a known item starts from: the catalog's baseline state on
/// each applicable axis, `false` on inapplicable ones.
pub open spec fn baseline_item(d: CatalogDefaults) -> MetaItem {
    MetaItem {
        alerted: d.alerted.baseline_spec(),
        discovered: d.discovered.baseline_spec(),
        unlocked: d.unlocked.baseline_spec(),
        poss_alert: d.alerted.applicable_spec(),
        poss_discover: d.discovered.applicable_spec(),
        poss_unlock: d.unlocked.applicable_spec(),
    }
}

/// Every known item with its baseline record: the canonical record set a
/// fresh editor starts from.
pub open spec fn baseline_map() -> Map<Seq<char>, MetaItem> {
    Map::new(|n: Seq<char>| catalog().contains_key(n), |n: Seq<char>| baseline_item(catalog()[n]))
}

/// Whether an item's capability flags are the ones reconciliation gives its
/// name: the catalog's for a known item, all three for a modded one.
pub open spec fn caps_match(n: Seq<char>, it: MetaItem) -> bool {
    if catalog().contains_key(n) {
        let d = catalog()[n];
        &&& it.poss_alert == d.alerted.applicable_spec()
        &&& it.poss_discover == d.discovered.applicable_spec()
        &&& it.poss_unlock == d.unlocked.applicable_spec()
    } else {
        it.poss_alert && it.poss_discover && it.poss_unlock
    }
}

/// The canonical record set: item name to record, plus the editor's filter
/// strings.
pub struct Meta {
    items: Vec<(String, MetaItem)>,
    /// The filters for the different types of items.
    pub filters: Filters,
}

impl Meta {
    /// The mapping this record set stands for.
    pub closed spec fn map_view(self) -> Map<Seq<char>, MetaItem> {
        pairs_map(self.items@)
    }

    /// Well-formed: one record per name, and every record keeps the
    /// capability invariant.
    pub closed spec fn wf(self) -> bool {
        &&& keys_unique(self.items@)
        &&& forall|n: Seq<char>|
            #[trigger] self.map_view().contains_key(n) ==> self.map_view()[n].inv()
    }

    /// Every record's capability flags agree with its name's reconciliation.
    pub open spec fn caps_ok(self) -> bool {
        forall|n: Seq<char>|
            #[trigger] self.map_view().contains_key(n) ==> caps_match(n, self.map_view()[n])
    }

    /// Every catalog item is present.
    pub open spec fn complete(self) -> bool {
        forall|n: Seq<char>|
            #[trigger] catalog().contains_key(n) ==> self.map_view().contains_key(n)
    }

    /// The capability invariant holds of every record in a well-formed set.
    pub proof fn lemma_wf_capability(self)
        requires
            self.wf(),
        ensures
            forall|n: Seq<char>|
                #[trigger] self.map_view().contains_key(n) ==> self.map_view()[n].inv(),
    {
    }

    fn new() -> (r: Meta)
        ensures
            r.map_view() == Map::<Seq<char>, MetaItem>::empty(),
            r.wf(),
            r.filters.joker@ == Seq::<char>::empty(),
            r.filters.misc@ == Seq::<char>::empty(),
            r.filters.card@ == Seq::<char>::empty(),
            r.filters.voucher@ == Seq::<char>::empty(),
    {
        let r = Meta { items: Vec::new(), filters: Filters::new() };
        proof {
            assert(r.map_view() =~= Map::<Seq<char>, MetaItem>::empty());
        }
        r
    }

    /// Create a record set holding every catalog item with its baseline
    /// state: the canonical set for a fresh, file-less session.
    pub fn from_defaults() -> (r: Meta)
        ensures
            r.map_view() == baseline_map(),
            r.wf(),
            r.caps_ok(),
            r.complete(),
    {
        let mut meta = Meta::new();
        let entries = catalog_entries();
        let n = entries.len();
        let mut i: usize = 0;
        proof {
            assert(baseline_fold(cat_rows().take(0)) =~= Map::<Seq<char>, MetaItem>::empty());
        }
        while i < n
            invariant
                n == entries@.len(),
                n == cat_rows().len(),
                i <= n,
                forall|t: int|
                    0 <= t < entries@.len() ==> (#[trigger] entries@[t].name@, entries@[t].defaults)
                        == cat_rows()[t],
                keys_unique(meta.items@),
                meta.map_view() == baseline_fold(cat_rows().take(i as int)),
                forall|m: Seq<char>|
                    #[trigger] meta.map_view().contains_key(m) ==> meta.map_view()[m].inv(),
                meta.filters.joker@ == Seq::<char>::empty(),
                meta.filters.misc@ == Seq::<char>::empty(),
                meta.filters.card@ == Seq::<char>::empty(),
                meta.filters.voucher@ == Seq::<char>::empty(),
            decreases n - i,
        {
            let ghost old_map = meta.map_view();
            let item = baseline_item_exec(entries[i].defaults);
            assoc_upsert(&mut meta.items, entries[i].name.clone(), item);
            proof {
                assert(cat_rows().take(i + 1).drop_last() =~= cat_rows().take(i as int));
                assert(cat_rows().take(i + 1).last() == cat_rows()[i as int]);
                assert(meta.map_view() == baseline_fold(cat_rows().take(i + 1)));
            }
            i = i + 1;
        }
        proof {
            assert(cat_rows().take(n as int) =~= cat_rows());
            lemma_baseline_fold(cat_rows());
            assert(meta.map_view() =~= baseline_map());
        }
        meta
    }

    /// Look an item up by name.
    pub fn get_item(&self, name: &str) -> (r: Option<&MetaItem>)
        ensures
            match r {
                Some(it) => self.wf() ==> (self.map_view().contains_key(name@)
                    && *it == self.map_view()[name@]),
                None => self.wf() ==> !self.map_view().contains_key(name@),
            },
    {
        let owned = name.to_owned();
        proof {
            lemma_pairs_map_domain(self.items@, name@);
        }
        match assoc_find(&self.items, &owned) {
            Some(i) => {
                proof {
                    if self.wf() {
                        lemma_pairs_map_at(self.items@, i as int);
                    }
                }
                Some(&self.items[i].1)
            },
            None => None,
        }
    }

    /// Merge one decoded name into the set: a known name keeps its
    /// capability flags and takes the decoded state on each applicable axis
    /// (absence on an axis reads as `false`); an unknown, modded name gets
    /// a fresh record with all three capability flags set.
    fn update_item(
        &mut self,
        name: &str,
        alerted: Option<bool>,
        discovered: Option<bool>,
        unlocked: Option<bool>,
    )
        requires
            old(self).wf(),
        ensures
            final(self).wf(),
            final(self).map_view() == old(self).map_view().insert(
                name@,
                merged_with(old(self).map_view(), name@, alerted, discovered, unlocked),
            ),
            final(self).filters == old(self).filters,
    {
        let owned = name.to_owned();
        let av = match alerted {
            Some(v) => v,
            None => false,
        };
        let dv = match discovered {
            Some(v) => v,
            None => false,
        };
        let uv = match unlocked {
            Some(v) => v,
            None => false,
        };
        let merged = match assoc_get(&self.items, &owned) {
            Some(it) => MetaItem {
                alerted: it.poss_alert && av,
                discovered: it.poss_discover && dv,
                unlocked: it.poss_unlock && uv,
                poss_alert: it.poss_alert,
                poss_discover: it.poss_discover,
                poss_unlock: it.poss_unlock,
            },
            None => MetaItem {
                alerted: av,
                discovered: dv,
                unlocked: uv,
                poss_alert: true,
                poss_discover: true,
                poss_unlock: true,
            },
        };
        assoc_upsert(&mut self.items, owned, merged);
        proof {
            let ghost nm = name@;
            assert forall|n: Seq<char>| #[trigger] self.map_view().contains_key(n) implies
                self.map_view()[n].inv() by {
                if n != nm {
                    assert(old(self).map_view().contains_key(n));
                }
            }
        }
    }
}

/// One axis of the record set, projected as a flat bool table's entries, in
/// record order.
pub open spec fn proj_alerted(items: Seq<(String, MetaItem)>) -> Seq<(SpecKey, SpecVal)> {
    Seq::new(items.len(), |i: int| (SpecKey::Text(items[i].0@), SpecVal::Bool(items[i].1.alerted)))
}

pub open spec fn proj_discovered(items: Seq<(String, MetaItem)>) -> Seq<(SpecKey, SpecVal)> {
    Seq::new(
        items.len(),
        |i: int| (SpecKey::Text(items[i].0@), SpecVal::Bool(items[i].1.discovered)),
    )
}

pub open spec fn proj_unlocked(items: Seq<(String, MetaItem)>) -> Seq<(SpecKey, SpecVal)> {
    Seq::new(items.len(), |i: int| (SpecKey::Text(items[i].0@), SpecVal::Bool(items[i].1.unlocked)))
}

/// The document a record set serializes to: a root table with the three
/// named flat bool subtables, every record present in each.
pub open spec fn doc_of(items: Seq<(String, MetaItem)>) -> SpecVal {
    SpecVal::Table(
        seq![
            (SpecKey::Text("alerted"@), SpecVal::Table(proj_alerted(items))),
            (SpecKey::Text("discovered"@), SpecVal::Table(proj_discovered(items))),
            (SpecKey::Text("unlocked"@), SpecVal::Table(proj_unlocked(items))),
        ],
    )
}

impl Meta {
    /// The document this record set serializes to.
    pub closed spec fn doc_view(self) -> SpecVal {
        doc_of(self.items@)
    }

    /// The bytes this record set saves to: its document's text as UTF-8.
    pub open spec fn save_payload(self) -> Seq<u8> {
        vstd::utf8::encode_utf8(crate::ser::ser_doc(self.doc_view()))
    }

    /// Project the record set into its save-file document: the three flat
    /// name-to-bool tables under one root, capability flags left out, since
    /// the file format carries none.
    pub fn to_table(&self) -> (t: Value)
        ensures
            t@ == self.doc_view(),
    {
        let n = self.items.len();
        let mut at: Vec<(TableKey, Value)> = Vec::new();
        let mut dt: Vec<(TableKey, Value)> = Vec::new();
        let mut ut: Vec<(TableKey, Value)> = Vec::new();
        let mut i: usize = 0;
        while i < n
            invariant
                n == self.items@.len(),
                i <= n,
                entries_view(at@) =~= proj_alerted(self.items@.take(i as int)),
                entries_view(dt@) =~= proj_discovered(self.items@.take(i as int)),
                entries_view(ut@) =~= proj_unlocked(self.items@.take(i as int)),
            decreases n - i,
        {
            let ghost oa = at@;
            let ghost od = dt@;
            let ghost ou = ut@;
            let name = &self.items[i].0;
            let item = self.items[i].1;
            at.push((TableKey::Text(name.clone()), Value::Bool(item.alerted)));
            dt.push((TableKey::Text(name.clone()), Value::Bool(item.discovered)));
            ut.push((TableKey::Text(name.clone()), Value::Bool(item.unlocked)));
            proof {
                crate::value::lemma_entries_view_push(oa, at@.last());
                crate::value::lemma_entries_view_push(od, dt@.last());
                crate::value::lemma_entries_view_push(ou, ut@.last());
                assert(entries_view(at@) =~= proj_alerted(self.items@.take(i + 1)));
                assert(entries_view(dt@) =~= proj_discovered(self.items@.take(i + 1)));
                assert(entries_view(ut@) =~= proj_unlocked(self.items@.take(i + 1)));
            }
            i = i + 1;
        }
        let mut root: Vec<(TableKey, Value)> = Vec::new();
        root.push((TableKey::Text(String::from_str("alerted")), Value::Table(at)));
        root.push((TableKey::Text(String::from_str("discovered")), Value::Table(dt)));
        root.push((TableKey::Text(String::from_str("unlocked")), Value::Table(ut)));
        let t = Value::Table(root);
        proof {
            assert(self.items@.take(n as int) =~= self.items@);
            crate::value::lemma_entries_view_index(root@);
            assert(t@ matches SpecVal::Table(es) && es =~= (match self.doc_view() {
                SpecVal::Table(des) => des,
                _ => arbitrary(),
            }));
        }
        t
    }

    /// Serialize and deflate the record set into save-file bytes.  This
    /// direction is total: the result is always `Ok`, and inflating it
    /// yields exactly the document text's bytes.
    pub fn to_lua_data(&self) -> (r: Result<Vec<u8>, crate::CoreError>)
        ensures
            r matches Ok(b) && b@ == crate::codec::deflate_of(self.save_payload()),
            r matches Ok(b) && crate::codec::inflate_of(b@) == Some(self.save_payload()),
    {
        let t = self.to_table();
        let text = crate::ser::serialize(&t, true);
        Ok(crate::codec::compress(text.as_str()))
    }
}

/// The record `update_item` leaves at a name.
pub open spec fn merged_with(
    m: Map<Seq<char>, MetaItem>,
    n: Seq<char>,
    alerted: Option<bool>,
    discovered: Option<bool>,
    unlocked: Option<bool>,
) -> MetaItem {
    if m.contains_key(n) {
        let it = m[n];
        MetaItem {
            alerted: it.poss_alert && alerted == Some(true),
            discovered: it.poss_discover && discovered == Some(true),
            unlocked: it.poss_unlock && unlocked == Some(true),
            poss_alert: it.poss_alert,
            poss_discover: it.poss_discover,
            poss_unlock: it.poss_unlock,
        }
    } else {
        MetaItem {
            alerted: alerted == Some(true),
            discovered: discovered == Some(true),
            unlocked: unlocked == Some(true),
            poss_alert: true,
            poss_discover: true,
            poss_unlock: true,
        }
    }
}

/// The flat name-to-bool map a subtable's entries stand for, as a Lua
/// constructor builds it (a later assignment wins).  `None` when an entry
/// has a non-string key or a non-bool value: the three per-axis subtables
/// carry nothing else in valid input.
pub open spec fn bool_map_of(es: Seq<(SpecKey, SpecVal)>) -> Option<Map<Seq<char>, bool>>
    decreases es.len(),
{
    if es.len() == 0 {
        Some(Map::empty())
    } else {
        match bool_map_of(es.drop_last()) {
            None => None,
            Some(m) => match (es.last().0, es.last().1) {
                (SpecKey::Text(n), SpecVal::Bool(b)) => Some(m.insert(n, b)),
                _ => None,
            },
        }
    }
}

/// Whether a name occurs in any of the three decoded per-axis maps.
pub open spec fn mentioned(
    n: Seq<char>,
    a: Map<Seq<char>, bool>,
    d: Map<Seq<char>, bool>,
    u: Map<Seq<char>, bool>,
) -> bool {
    a.contains_key(n) || d.contains_key(n) || u.contains_key(n)
}

/// The record reconciliation gives a name.  A known item keeps the
/// catalog's capabilities; if the file mentions the name anywhere, each
/// applicable axis takes the decoded value (absence on an axis reads as
/// `false`), and a name the file never mentions keeps its catalog baseline.
/// An unknown, modded name gets all three capabilities and the decoded
/// state.
pub open spec fn reconciled_item(
    n: Seq<char>,
    a: Map<Seq<char>, bool>,
    d: Map<Seq<char>, bool>,
    u: Map<Seq<char>, bool>,
) -> MetaItem {
    if catalog().contains_key(n) {
        let cd = catalog()[n];
        if mentioned(n, a, d, u) {
            MetaItem {
                alerted: cd.alerted.applicable_spec() && a.contains_key(n) && a[n],
                discovered: cd.discovered.applicable_spec() && d.contains_key(n) && d[n],
                unlocked: cd.unlocked.applicable_spec() && u.contains_key(n) && u[n],
                poss_alert: cd.alerted.applicable_spec(),
                poss_discover: cd.discovered.applicable_spec(),
                poss_unlock: cd.unlocked.applicable_spec(),
            }
        } else {
            baseline_item(cd)
        }
    } else {
        MetaItem {
            alerted: a.contains_key(n) && a[n],
            discovered: d.contains_key(n) && d[n],
            unlocked: u.contains_key(n) && u[n],
            poss_alert: true,
            poss_discover: true,
            poss_unlock: true,
        }
    }
}

/// Reconcile the three decoded maps with the catalog: every known item and
/// every mentioned name, each with its reconciled record.
pub open spec fn reconcile(
    a: Map<Seq<char>, bool>,
    d: Map<Seq<char>, bool>,
    u: Map<Seq<char>, bool>,
) -> Map<Seq<char>, MetaItem> {
    Map::new(
        |n: Seq<char>| catalog().contains_key(n) || mentioned(n, a, d, u),
        |n: Seq<char>| reconciled_item(n, a, d, u),
    )
}

/// Reconciliation after only the names in `ns` have been merged over the
/// baseline seed.
pub open spec fn reconcile_upto(
    a: Map<Seq<char>, bool>,
    d: Map<Seq<char>, bool>,
    u: Map<Seq<char>, bool>,
    ns: Seq<Seq<char>>,
) -> Map<Seq<char>, MetaItem> {
    Map::new(
        |n: Seq<char>| catalog().contains_key(n) || ns.contains(n),
        |n: Seq<char>|
            if ns.contains(n) {
                reconciled_item(n, a, d, u)
            } else {
                baseline_item(catalog()[n])
            },
    )
}

/// What loading a byte stream comes to, end to end.
pub enum LoadOutcome {
    /// The reconciled record mapping.
    Loaded(Map<Seq<char>, MetaItem>),
    /// DEFLATE inflation failed structurally.
    CorruptStream,
    /// The inflated payload is not valid UTF-8.
    InvalidEncoding,
    /// The text does not fit the restricted grammar, the root is not a
    /// table, or one of the three subtables holds a non-string key or a
    /// non-bool value.
    ParseError,
    /// The named per-axis subtable is absent from the root table.
    MissingSubtable(Seq<char>),
}

/// The load pipeline, step by step: inflate, validate UTF-8, parse, pick
/// the three per-axis subtables out of the root, read them as flat bool
/// maps, then reconcile against the catalog.
pub open spec fn load_outcome(bytes: Seq<u8>) -> LoadOutcome {
    match crate::codec::doc_outcome(bytes) {
        crate::codec::DocOutcome::CorruptStream => LoadOutcome::CorruptStream,
        crate::codec::DocOutcome::InvalidEncoding => LoadOutcome::InvalidEncoding,
        crate::codec::DocOutcome::ParseError => LoadOutcome::ParseError,
        crate::codec::DocOutcome::Parsed(v) => match v {
            SpecVal::Table(es) => match crate::value::subtable_spec(es, "alerted"@) {
                None => LoadOutcome::MissingSubtable("alerted"@),
                Some(ae) => match crate::value::subtable_spec(es, "discovered"@) {
                    None => LoadOutcome::MissingSubtable("discovered"@),
                    Some(de) => match crate::value::subtable_spec(es, "unlocked"@) {
                        None => LoadOutcome::MissingSubtable("unlocked"@),
                        Some(ue) => match (bool_map_of(ae), bool_map_of(de), bool_map_of(ue)) {
                            (Some(ma), Some(md), Some(mu)) => LoadOutcome::Loaded(
                                reconcile(ma, md, mu),
                            ),
                            _ => LoadOutcome::ParseError,
                        },
                    },
                },
            },
            _ => LoadOutcome::ParseError,
        },
    }
}

/// Once a prefix fails to read as a bool map, the whole entry list does.
proof fn lemma_bool_map_of_none_extend(es: Seq<(SpecKey, SpecVal)>, i: int)
    requires
        0 <= i <= es.len(),
        bool_map_of(es.take(i)) is None,
    ensures
        bool_map_of(es) is None,
    decreases es.len() - i,
{
    if i == es.len() {
        assert(es.take(i) =~= es);
    } else {
        assert(es.take(i + 1).drop_last() =~= es.take(i));
        lemma_bool_map_of_none_extend(es, i + 1);
    }
}

/// Read a subtable's entries as name/bool pairs with distinct names.
pub(crate) fn extract_bool_pairs(entries: &Vec<(TableKey, Value)>) -> (r: Option<Vec<(String, bool)>>)
    ensures
        match r {
            Some(v) => keys_unique(v@) && bool_map_of(entries_view(entries@)) == Some(
                pairs_map(v@),
            ),
            None => bool_map_of(entries_view(entries@)) is None,
        },
{
    let n = entries.len();
    let ghost ev = entries_view(entries@);
    proof {
        crate::value::lemma_entries_view_index(entries@);
        assert(ev.take(0) =~= Seq::<(SpecKey, SpecVal)>::empty());
        assert(bool_map_of(ev.take(0)) == Some(Map::<Seq<char>, bool>::empty()));
    }
    let mut out: Vec<(String, bool)> = Vec::new();
    proof {
        assert(pairs_map(out@) =~= Map::<Seq<char>, bool>::empty());
    }
    let mut i: usize = 0;
    while i < n
        invariant
            n == entries@.len(),
            i <= n,
            ev == entries_view(entries@),
            ev.len() == entries@.len(),
            forall|t: int|
                0 <= t < entries@.len() ==> #[trigger] ev[t] == (crate::value::key_view(
                    entries@[t].0,
                ), crate::value::val_view(entries@[t].1)),
            keys_unique(out@),
            bool_map_of(ev.take(i as int)) == Some(pairs_map(out@)),
        decreases n - i,
    {
        proof {
            assert(ev.take(i + 1).drop_last() =~= ev.take(i as int));
            assert(ev.take(i + 1).last() == ev[i as int]);
        }
        let name = match &entries[i].0 {
            TableKey::Text(s) => s,
            TableKey::Num(_) => {
                proof {
                    assert(bool_map_of(ev.take(i + 1)) is None);
                    lemma_bool_map_of_none_extend(ev, i + 1);
                }
                return None;
            },
        };
        let b = match &entries[i].1 {
            Value::Bool(b) => *b,
            _ => {
                proof {
                    assert(!(ev[i as int].1 is Bool));
                    assert(bool_map_of(ev.take(i + 1)) is None);
                    lemma_bool_map_of_none_extend(ev, i + 1);
                }
                return None;
            },
        };
        assoc_upsert(&mut out, name.clone(), b);
        i = i + 1;
    }
    proof {
        assert(ev.take(n as int) =~= ev);
    }
    Some(out)
}

/// Whether a name already occurs in the list.
fn name_present(ns: &Vec<String>, n: &String) -> (r: bool)
    ensures
        r == exists|i: int| 0 <= i < ns@.len() && (#[trigger] ns@[i])@ == n@,
{
    let len = ns.len();
    let mut i: usize = 0;
    while i < len
        invariant
            len == ns@.len(),
            i <= len,
            forall|t: int| 0 <= t < i ==> (#[trigger] ns@[t])@ != n@,
        decreases len - i,
    {
        if ns[i] == *n {
            return true;
        }
        i = i + 1;
    }
    false
}

/// Names pairwise distinct.
pub open spec fn names_unique(ns: Seq<String>) -> bool {
    forall|i: int, j: int| 0 <= i < j < ns.len() ==> (#[trigger] ns[i])@ != (#[trigger] ns[j])@
}

/// Whether `n` occurs among the names.
pub open spec fn name_in(ns: Seq<String>, n: Seq<char>) -> bool {
    exists|i: int| 0 <= i < ns.len() && (#[trigger] ns[i])@ == n
}

/// Append the names of `src` that are not yet in `dst`.
pub(crate) fn push_missing_names(dst: &mut Vec<String>, src: &Vec<(String, bool)>)
    requires
        names_unique(old(dst)@),
    ensures
        names_unique(final(dst)@),
        forall|n: Seq<char>|
            #[trigger] name_in(final(dst)@, n) <==> (name_in(old(dst)@, n) || pairs_map(
                src@,
            ).contains_key(n)),
{
    let len = src.len();
    let mut i: usize = 0;
    while i < len
        invariant
            len == src@.len(),
            i <= len,
            names_unique(dst@),
            forall|n: Seq<char>|
                #[trigger] name_in(dst@, n) <==> (name_in(old(dst)@, n) || exists|t: int|
                    0 <= t < i && (#[trigger] src@[t].0)@ == n),
        decreases len - i,
    {
        let ghost prev = dst@;
        if !name_present(dst, &src[i].0) {
            dst.push(src[i].0.clone());
            proof {
                assert forall|n: Seq<char>| #[trigger] name_in(dst@, n) implies (name_in(prev, n)
                    || n == src@[i as int].0@) by {
                    let t = choose|t: int| 0 <= t < dst@.len() && (#[trigger] dst@[t])@ == n;
                    if t < dst@.len() - 1 {
                        assert(prev[t]@ == n);
                    }
                }
                assert forall|n: Seq<char>| name_in(prev, n) implies #[trigger] name_in(
                    dst@,
                    n,
                ) by {
                    let t = choose|t: int| 0 <= t < prev.len() && (#[trigger] prev[t])@ == n;
                    assert(dst@[t]@ == n);
                }
                assert(name_in(dst@, src@[i as int].0@)) by {
                    assert(dst@[dst@.len() - 1]@ == src@[i as int].0@);
                }
            }
        }
        proof {
            lemma_pairs_map_domain(src@, src@[i as int].0@);
        }
        i = i + 1;
    }
    proof {
        assert forall|n: Seq<char>| #[trigger] name_in(dst@, n) <==> (name_in(old(dst)@, n)
            || pairs_map(src@).contains_key(n)) by {
            lemma_pairs_map_domain(src@, n);
        }
    }
}

/// Fold the catalog rows into baseline records, front to back.
pub open spec fn baseline_fold(rows: Seq<(Seq<char>, CatalogDefaults)>) -> Map<Seq<char>, MetaItem>
    decreases rows.len(),
{
    if rows.len() == 0 {
        Map::empty()
    } else {
        baseline_fold(rows.drop_last()).insert(rows.last().0, baseline_item(rows.last().1))
    }
}

/// Folding baseline records over rows agrees pointwise with the rows' map.
proof fn lemma_baseline_fold(rows: Seq<(Seq<char>, CatalogDefaults)>)
    ensures
        forall|n: Seq<char>|
            #[trigger] baseline_fold(rows).contains_key(n) == crate::catalog::rows_map(
                rows,
            ).contains_key(n),
        forall|n: Seq<char>|
            #[trigger] baseline_fold(rows).contains_key(n) ==> baseline_fold(rows)[n]
                == baseline_item(crate::catalog::rows_map(rows)[n]),
    decreases rows.len(),
{
    if rows.len() > 0 {
        lemma_baseline_fold(rows.drop_last());
        let prev = rows.drop_last();
        assert forall|n: Seq<char>|
            #[trigger] baseline_fold(rows).contains_key(n) == crate::catalog::rows_map(
                rows,
            ).contains_key(n) by {
            assert(baseline_fold(prev).contains_key(n) == crate::catalog::rows_map(
                prev,
            ).contains_key(n));
        }
        assert forall|n: Seq<char>| #[trigger] baseline_fold(rows).contains_key(n) implies
            baseline_fold(rows)[n] == baseline_item(crate::catalog::rows_map(rows)[n]) by {
            if n != rows.last().0 {
                assert(baseline_fold(prev).contains_key(n));
            }
        }
    }
}

impl Meta {
    /// Load save-file bytes into a canonical record set: decompress, parse,
    /// pick the three per-axis subtables, and reconcile them with the
    /// catalog.  Every catalog item comes out with its catalog capabilities
    /// and every modded name with all three; the result is well-formed.
    pub fn from_lua_table(data: &[u8]) -> (r: Result<Meta, crate::CoreError>)
        ensures
            match r {
                Ok(m) => load_outcome(data@) == LoadOutcome::Loaded(m.map_view()) && m.wf()
                    && m.caps_ok() && m.complete(),
                Err(e) => match e {
                    crate::CoreError::CorruptStream => load_outcome(data@) is CorruptStream,
                    crate::CoreError::InvalidEncoding => load_outcome(data@) is InvalidEncoding,
                    crate::CoreError::ParseError => load_outcome(data@) is ParseError,
                    crate::CoreError::MissingSubtable(nm) => load_outcome(data@)
                        == LoadOutcome::MissingSubtable(nm@),
                },
            },
    {
        let root = match crate::codec::data_as_table(data) {
            Ok(v) => v,
            Err(e) => {
                return Err(e);
            },
        };
        match &root {
            Value::Table(_) => (),
            _ => {
                return Err(crate::CoreError::ParseError);
            },
        };
        let at = match crate::value::lookup_subtable(&root, "alerted") {
            Ok(t) => t,
            Err(e) => {
                return Err(e);
            },
        };
        let dt = match crate::value::lookup_subtable(&root, "discovered") {
            Ok(t) => t,
            Err(e) => {
                return Err(e);
            },
        };
        let ut = match crate::value::lookup_subtable(&root, "unlocked") {
            Ok(t) => t,
            Err(e) => {
                return Err(e);
            },
        };
        let ap = match extract_bool_pairs(at) {
            Some(v) => v,
            None => {
                return Err(crate::CoreError::ParseError);
            },
        };
        let dp = match extract_bool_pairs(dt) {
            Some(v) => v,
            None => {
                return Err(crate::CoreError::ParseError);
            },
        };
        let up = match extract_bool_pairs(ut) {
            Some(v) => v,
            None => {
                return Err(crate::CoreError::ParseError);
            },
        };
        let ghost ma = pairs_map(ap@);
        let ghost md = pairs_map(dp@);
        let ghost mu = pairs_map(up@);
        let mut names: Vec<String> = Vec::new();
        push_missing_names(&mut names, &ap);
        push_missing_names(&mut names, &dp);
        push_missing_names(&mut names, &up);
        let mut meta = Meta::from_defaults();
        let ghost nv = names@.map_values(|s: String| s@);
        proof {
            assert(nv.take(0) =~= Seq::<Seq<char>>::empty());
            assert(meta.map_view() =~= reconcile_upto(ma, md, mu, nv.take(0)));
        }
        let count = names.len();
        let mut i: usize = 0;
        while i < count
            invariant
                count == names@.len(),
                i <= count,
                nv == names@.map_values(|s: String| s@),
                nv.len() == names@.len(),
                names_unique(names@),
                keys_unique(ap@),
                keys_unique(dp@),
                keys_unique(up@),
                ma == pairs_map(ap@),
                md == pairs_map(dp@),
                mu == pairs_map(up@),
                forall|n: Seq<char>| #[trigger] name_in(names@, n) <==> mentioned(n, ma, md, mu),
                meta.wf(),
                meta.map_view() == reconcile_upto(ma, md, mu, nv.take(i as int)),
            decreases count - i,
        {
            let a = assoc_get(&ap, &names[i]);
            let d = assoc_get(&dp, &names[i]);
            let u = assoc_get(&up, &names[i]);
            let ghost n = nv[i as int];
            let ghost before = meta.map_view();
            proof {
                assert(names@[i as int]@ == n);
                assert(name_in(names@, n)) by {
                    assert(names@[i as int]@ == n);
                }
                assert(!nv.take(i as int).contains(n)) by {
                    if nv.take(i as int).contains(n) {
                        let t = choose|t: int| 0 <= t < i && #[trigger] nv.take(i as int)[t] == n;
                        assert(names@[t]@ == n);
                    }
                }
            }
            meta.update_item(names[i].as_str(), a, d, u);
            proof {
                let merged = merged_with(before, n, a, d, u);
                assert(merged == reconciled_item(n, ma, md, mu)) by {
                    if catalog().contains_key(n) {
                        assert(before.contains_key(n));
                        assert(before[n] == baseline_item(catalog()[n]));
                    } else {
                        assert(!before.contains_key(n));
                    }
                }
                assert(nv.take(i + 1) =~= nv.take(i as int).push(n));
                assert forall|x: Seq<char>| nv.take(i + 1).contains(x) <==> (nv.take(
                    i as int,
                ).contains(x) || x == n) by {
                    if nv.take(i + 1).contains(x) {
                        let t = choose|t: int| 0 <= t < i + 1 && #[trigger] nv.take(i + 1)[t] == x;
                        if t < i {
                            assert(nv.take(i as int)[t] == x);
                        }
                    }
                    if nv.take(i as int).contains(x) {
                        let t = choose|t: int| 0 <= t < i && #[trigger] nv.take(i as int)[t] == x;
                        assert(nv.take(i + 1)[t] == x);
                    }
                    if x == n {
                        assert(nv.take(i + 1)[i as int] == x);
                    }
                }
                assert(meta.map_view() =~= reconcile_upto(ma, md, mu, nv.take(i + 1)));
            }
            i = i + 1;
        }
        proof {
            assert(nv.take(count as int) =~= nv);
            assert forall|x: Seq<char>| nv.contains(x) <==> mentioned(x, ma, md, mu) by {
                if nv.contains(x) {
                    let t = choose|t: int| 0 <= t < nv.len() && #[trigger] nv[t] == x;
                    assert(names@[t]@ == x);
                    assert(name_in(names@, x));
                }
                if mentioned(x, ma, md, mu) {
                    assert(name_in(names@, x));
                    let t = choose|t: int| 0 <= t < names@.len() && (#[trigger] names@[t])@ == x;
                    assert(nv[t] == x);
                }
            }
            assert(meta.map_view() =~= reconcile(ma, md, mu));
            assert forall|n: Seq<char>| #[trigger] meta.map_view().contains_key(n) implies
                caps_match(n, meta.map_view()[n]) by {
                assert(meta.map_view()[n] == reconciled_item(n, ma, md, mu));
            }
        }
        Ok(meta)
    }
}

/// Whether `p` is a prefix of `n`; item categories are prefixes of names.
pub open spec fn starts_with(n: Seq<char>, p: Seq<char>) -> bool {
    p.len() <= n.len() && n.subrange(0, p.len() as int) == p
}

/// Whether `p` (as a string) is a prefix of `s`.
pub fn str_starts_with(s: &str, p: &str) -> (r: bool)
    ensures
        r == starts_with(s@, p@),
{
    let sv = crate::chars::str_chars_vec(s);
    let pv = crate::chars::str_chars_vec(p);
    let plen = pv.len();
    if plen > sv.len() {
        return false;
    }
    let mut i: usize = 0;
    while i < plen
        invariant
            sv@ == s@,
            pv@ == p@,
            plen == p@.len(),
            plen <= s@.len(),
            i <= plen,
            forall|t: int| 0 <= t < i ==> s@[t] == p@[t],
        decreases plen - i,
    {
        if sv[i] != pv[i] {
            proof {
                if s@.subrange(0, plen as int) == p@ {
                    assert(s@.subrange(0, plen as int)[i as int] == s@[i as int]);
                }
            }
            return false;
        }
        i = i + 1;
    }
    proof {
        assert(s@.subrange(0, plen as int) =~= p@);
    }
    true
}

/// The record `unlock_all_type` leaves for a matching name: a known item's
/// applicable axes all come on and its inapplicable ones stay off; a modded
/// item has all three states forced on.  Capability flags stay as they are.
pub open spec fn unlocked_item_for(n: Seq<char>, it: MetaItem) -> MetaItem {
    if catalog().contains_key(n) {
        let cd = catalog()[n];
        MetaItem {
            alerted: cd.alerted.applicable_spec(),
            discovered: cd.discovered.applicable_spec(),
            unlocked: cd.unlocked.applicable_spec(),
            poss_alert: it.poss_alert,
            poss_discover: it.poss_discover,
            poss_unlock: it.poss_unlock,
        }
    } else {
        MetaItem {
            alerted: true,
            discovered: true,
            unlocked: true,
            poss_alert: it.poss_alert,
            poss_discover: it.poss_discover,
            poss_unlock: it.poss_unlock,
        }
    }
}

/// The whole record mapping after `unlock_all_type` with a prefix.
pub open spec fn unlock_map(m: Map<Seq<char>, MetaItem>, p: Seq<char>) -> Map<Seq<char>, MetaItem> {
    Map::new(
        |n: Seq<char>| m.contains_key(n),
        |n: Seq<char>|
            if starts_with(n, p) {
                unlocked_item_for(n, m[n])
            } else {
                m[n]
            },
    )
}

impl Meta {
    /// Turn on every item whose name starts with the prefix: known items
    /// get each applicable axis set (never an inapplicable one), modded
    /// items get all three.
    pub fn unlock_all_type(&mut self, type_: &str)
        ensures
            old(self).wf() && old(self).caps_ok() ==> ({
                &&& final(self).map_view() == unlock_map(old(self).map_view(), type_@)
                &&& final(self).wf()
                &&& final(self).caps_ok()
                &&& (old(self).complete() ==> final(self).complete())
            }),
    {
        let n = self.items.len();
        let ghost orig = self.items@;
        let mut i: usize = 0;
        while i < n
            invariant
                n == self.items@.len(),
                i <= n,
                orig.len() == n,
                forall|t: int| 0 <= t < n ==> (#[trigger] self.items@[t]).0@ == orig[t].0@,
                forall|t: int| i <= t < n ==> (#[trigger] self.items@[t]).1 == orig[t].1,
                forall|t: int|
                    0 <= t < i ==> (#[trigger] self.items@[t]).1 == (if starts_with(
                        orig[t].0@,
                        type_@,
                    ) {
                        unlocked_item_for(orig[t].0@, orig[t].1)
                    } else {
                        orig[t].1
                    }),
            decreases n - i,
        {
            let matched = str_starts_with(self.items[i].0.as_str(), type_);
            if matched {
                let old_it = self.items[i].1;
                let new_it = match catalog_lookup(&self.items[i].0) {
                    Some(cd) => MetaItem {
                        alerted: cd.alerted.applicable(),
                        discovered: cd.discovered.applicable(),
                        unlocked: cd.unlocked.applicable(),
                        poss_alert: old_it.poss_alert,
                        poss_discover: old_it.poss_discover,
                        poss_unlock: old_it.poss_unlock,
                    },
                    None => MetaItem {
                        alerted: true,
                        discovered: true,
                        unlocked: true,
                        poss_alert: old_it.poss_alert,
                        poss_discover: old_it.poss_discover,
                        poss_unlock: old_it.poss_unlock,
                    },
                };
                let nm = self.items[i].0.clone();
                self.items[i] = (nm, new_it);
            }
            i = i + 1;
        }
        proof {
            if old(self).wf() && old(self).caps_ok() {
                let m0 = old(self).map_view();
                assert(m0 == pairs_map(orig));
                assert(keys_unique(self.items@));
                assert forall|x: Seq<char>| #[trigger] self.map_view().contains_key(x)
                    == unlock_map(m0, type_@).contains_key(x) by {
                    lemma_pairs_map_domain(self.items@, x);
                    lemma_pairs_map_domain(orig, x);
                    if pairs_map(self.items@).contains_key(x) {
                        let t = choose|t: int|
                            0 <= t < self.items@.len() && (#[trigger] self.items@[t]).0@ == x;
                        assert(orig[t].0@ == x);
                    }
                    if pairs_map(orig).contains_key(x) {
                        let t = choose|t: int|
                            0 <= t < orig.len() && (#[trigger] orig[t]).0@ == x;
                        assert(self.items@[t].0@ == x);
                    }
                }
                assert forall|x: Seq<char>| #[trigger] self.map_view().contains_key(x) implies
                    self.map_view()[x] == unlock_map(m0, type_@)[x] by {
                    lemma_pairs_map_domain(self.items@, x);
                    let t = choose|t: int|
                        0 <= t < self.items@.len() && (#[trigger] self.items@[t]).0@ == x;
                    lemma_pairs_map_at(self.items@, t);
                    lemma_pairs_map_at(orig, t);
                }
                assert(self.map_view() =~= unlock_map(m0, type_@));
                assert forall|x: Seq<char>| #[trigger] self.map_view().contains_key(x) implies
                    (self.map_view()[x].inv() && caps_match(x, self.map_view()[x])) by {
                    assert(old(self).map_view().contains_key(x));
                    assert(caps_match(x, m0[x]));
                    assert(m0[x].inv());
                    assert(self.map_view()[x] == unlock_map(m0, type_@)[x]);
                }
            }
        }
    }

    /// Set an item's three state booleans, each masked by its capability:
    /// an inapplicable axis stays `false`.  Returns whether the name was
    /// present; an absent name changes nothing.
    pub fn set_item(&mut self, name: &str, alerted: bool, discovered: bool, unlocked: bool) -> (r:
        bool)
        ensures
            old(self).wf() ==> ({
                &&& r == old(self).map_view().contains_key(name@)
                &&& final(self).wf()
                &&& final(self).map_view() == (if old(self).map_view().contains_key(name@) {
                    old(self).map_view().insert(
                        name@,
                        set_states(old(self).map_view()[name@], alerted, discovered, unlocked),
                    )
                } else {
                    old(self).map_view()
                })
                &&& (old(self).caps_ok() ==> final(self).caps_ok())
                &&& (old(self).complete() ==> final(self).complete())
            }),
    {
        let owned = name.to_owned();
        proof {
            lemma_pairs_map_domain(self.items@, name@);
        }
        match assoc_find(&self.items, &owned) {
            None => false,
            Some(i) => {
                proof {
                    if old(self).wf() {
                        lemma_pairs_map_at(self.items@, i as int);
                    }
                }
                let it = self.items[i].1;
                let new_it = MetaItem {
                    alerted: it.poss_alert && alerted,
                    discovered: it.poss_discover && discovered,
                    unlocked: it.poss_unlock && unlocked,
                    poss_alert: it.poss_alert,
                    poss_discover: it.poss_discover,
                    poss_unlock: it.poss_unlock,
                };
                let ghost before = self.items@;
                self.items[i] = (owned, new_it);
                proof {
                    if old(self).wf() {
                        assert(self.items@ =~= before.update(i as int, self.items@[i as int]));
                        crate::assoc::lemma_pairs_map_update(
                            before,
                            i as int,
                            self.items@[i as int].0,
                            new_it,
                        );
                        let nm = name@;
                        assert forall|x: Seq<char>| #[trigger] self.map_view().contains_key(
                            x,
                        ) implies (self.map_view()[x].inv() && (old(self).caps_ok() ==> caps_match(
                            x,
                            self.map_view()[x],
                        ))) by {
                            if x != nm {
                                assert(old(self).map_view().contains_key(x));
                            } else {
                                assert(caps_match(nm, old(self).map_view()[nm]) == caps_match(
                                    nm,
                                    new_it,
                                ));
                            }
                        }
                    }
                }
                true
            },
        }
    }
}

/// The record `set_item` leaves: the requested states masked by the
/// record's own capability flags, which do not change.
pub open spec fn set_states(it: MetaItem, alerted: bool, discovered: bool, unlocked: bool) -> MetaItem {
    MetaItem {
        alerted: it.poss_alert && alerted,
        discovered: it.poss_discover && discovered,
        unlocked: it.poss_unlock && unlocked,
        poss_alert: it.poss_alert,
        poss_discover: it.poss_discover,
        poss_unlock: it.poss_unlock,
    }
}

/// One axis of a record mapping as a flat name-to-bool map.
pub open spec fn states_alerted(m: Map<Seq<char>, MetaItem>) -> Map<Seq<char>, bool> {
    Map::new(|n: Seq<char>| m.contains_key(n), |n: Seq<char>| m[n].alerted)
}

pub open spec fn states_discovered(m: Map<Seq<char>, MetaItem>) -> Map<Seq<char>, bool> {
    Map::new(|n: Seq<char>| m.contains_key(n), |n: Seq<char>| m[n].discovered)
}

pub open spec fn states_unlocked(m: Map<Seq<char>, MetaItem>) -> Map<Seq<char>, bool> {
    Map::new(|n: Seq<char>| m.contains_key(n), |n: Seq<char>| m[n].unlocked)
}

/// Reading a projected subtable back gives exactly the per-axis states of
/// the records it was projected from.
proof fn lemma_proj_bool_maps(items: Seq<(String, MetaItem)>)
    ensures
        bool_map_of(proj_alerted(items)) == Some(states_alerted(pairs_map(items))),
        bool_map_of(proj_discovered(items)) == Some(states_discovered(pairs_map(items))),
        bool_map_of(proj_unlocked(items)) == Some(states_unlocked(pairs_map(items))),
    decreases items.len(),
{
    if items.len() == 0 {
        assert(proj_alerted(items) =~= Seq::<(SpecKey, SpecVal)>::empty());
        assert(proj_discovered(items) =~= Seq::<(SpecKey, SpecVal)>::empty());
        assert(proj_unlocked(items) =~= Seq::<(SpecKey, SpecVal)>::empty());
        assert(states_alerted(pairs_map(items)) =~= Map::<Seq<char>, bool>::empty());
        assert(states_discovered(pairs_map(items)) =~= Map::<Seq<char>, bool>::empty());
        assert(states_unlocked(pairs_map(items)) =~= Map::<Seq<char>, bool>::empty());
    } else {
        let prev = items.drop_last();
        let e = items.last();
        lemma_proj_bool_maps(prev);
        assert(proj_alerted(items).drop_last() =~= proj_alerted(prev));
        assert(proj_discovered(items).drop_last() =~= proj_discovered(prev));
        assert(proj_unlocked(items).drop_last() =~= proj_unlocked(prev));
        assert(proj_alerted(items).last() == (SpecKey::Text(e.0@), SpecVal::Bool(e.1.alerted)));
        assert(proj_discovered(items).last() == (
            SpecKey::Text(e.0@),
            SpecVal::Bool(e.1.discovered),
        ));
        assert(proj_unlocked(items).last() == (SpecKey::Text(e.0@), SpecVal::Bool(e.1.unlocked)));
        assert(states_alerted(pairs_map(items)) =~= states_alerted(pairs_map(prev)).insert(
            e.0@,
            e.1.alerted,
        ));
        assert(states_discovered(pairs_map(items)) =~= states_discovered(pairs_map(prev)).insert(
            e.0@,
            e.1.discovered,
        ));
        assert(states_unlocked(pairs_map(items)) =~= states_unlocked(pairs_map(prev)).insert(
            e.0@,
            e.1.unlocked,
        ));
    }
}

impl Meta {
    /// Round trip: loading the bytes this record set saves to yields
    /// exactly this record set's mapping — state booleans reproduced for
    /// every item, capability flags recomputed identically from the
    /// catalog.  The hypothesis on `bytes` is what `to_lua_data` ensures of
    /// its result.
    pub proof fn lemma_load_of_save(self, bytes: Seq<u8>)
        requires
            self.wf(),
            self.caps_ok(),
            self.complete(),
            crate::codec::inflate_of(bytes) == Some(self.save_payload()),
        ensures
            load_outcome(bytes) == LoadOutcome::Loaded(self.map_view()),
    {
        let items = self.items@;
        let doc = doc_of(items);
        let text = crate::ser::ser_doc(doc);
        vstd::utf8::encode_utf8_valid_utf8(text);
        vstd::utf8::encode_utf8_decode_utf8(text);
        crate::parse::lemma_sp_doc_of_ser(doc);
        let ae = proj_alerted(items);
        let de = proj_discovered(items);
        let ue = proj_unlocked(items);
        let ea = (SpecKey::Text("alerted"@), SpecVal::Table(ae));
        let ed = (SpecKey::Text("discovered"@), SpecVal::Table(de));
        let eu = (SpecKey::Text("unlocked"@), SpecVal::Table(ue));
        let es = seq![ea, ed, eu];
        assert(doc == SpecVal::Table(es));
        reveal_strlit("alerted");
        reveal_strlit("discovered");
        reveal_strlit("unlocked");
        assert("alerted"@.len() == 7 && "discovered"@.len() == 10 && "unlocked"@.len() == 8);
        let es2 = es.drop_last();
        let es1 = es2.drop_last();
        assert(es2 =~= seq![ea, ed]);
        assert(es1 =~= seq![ea]);
        assert(es1.drop_last() =~= Seq::<(SpecKey, SpecVal)>::empty());
        assert(crate::value::lookup_spec(es1, "alerted"@) == Some(SpecVal::Table(ae)));
        assert(crate::value::lookup_spec(es2, "alerted"@) == crate::value::lookup_spec(
            es1,
            "alerted"@,
        ));
        assert(crate::value::lookup_spec(es, "alerted"@) == crate::value::lookup_spec(
            es2,
            "alerted"@,
        ));
        assert(crate::value::lookup_spec(es2, "discovered"@) == Some(SpecVal::Table(de)));
        assert(crate::value::lookup_spec(es, "discovered"@) == crate::value::lookup_spec(
            es2,
            "discovered"@,
        ));
        assert(crate::value::lookup_spec(es, "unlocked"@) == Some(SpecVal::Table(ue)));
        assert(crate::value::subtable_spec(es, "alerted"@) == Some(ae));
        assert(crate::value::subtable_spec(es, "discovered"@) == Some(de));
        assert(crate::value::subtable_spec(es, "unlocked"@) == Some(ue));
        lemma_proj_bool_maps(items);
        let mm = pairs_map(items);
        let ma = states_alerted(mm);
        let md = states_discovered(mm);
        let mu = states_unlocked(mm);
        assert forall|x: Seq<char>| #[trigger] reconcile(ma, md, mu).contains_key(x)
            == mm.contains_key(x) by {
            if catalog().contains_key(x) {
                assert(self.map_view().contains_key(x));
            }
        }
        assert forall|x: Seq<char>| #[trigger] mm.contains_key(x) implies reconcile(ma, md, mu)[x]
            == mm[x] by {
            assert(self.map_view().contains_key(x));
            assert(caps_match(x, mm[x]));
            assert(mm[x].inv());
            assert(mentioned(x, ma, md, mu));
        }
        assert(reconcile(ma, md, mu) =~= mm);
    }

    /// Unlocking all items of a prefix twice leaves what one pass leaves:
    /// the records a pass writes depend only on the name, the catalog, and
    /// the untouched capability flags.
    pub proof fn lemma_unlock_all_idempotent(m: Map<Seq<char>, MetaItem>, prefix: Seq<char>)
        ensures
            unlock_map(unlock_map(m, prefix), prefix) == unlock_map(m, prefix),
    {
        assert(unlock_map(unlock_map(m, prefix), prefix) =~= unlock_map(m, prefix));
    }

    /// Catalog-absence policy: a known item the decoded file never mentions
    /// reconciles to its catalog baseline state.
    pub proof fn lemma_catalog_absence(
        a: Map<Seq<char>, bool>,
        d: Map<Seq<char>, bool>,
        u: Map<Seq<char>, bool>,
        n: Seq<char>,
    )
        requires
            catalog().contains_key(n),
            !a.contains_key(n),
            !d.contains_key(n),
            !u.contains_key(n),
        ensures
            reconcile(a, d, u).contains_key(n),
            reconcile(a, d, u)[n] == baseline_item(catalog()[n]),
    {
    }

    /// Modded-item policy: a name outside the catalog mentioned only as
    /// `alerted=true` reconciles to an all-capable record with only the
    /// alert state set.
    pub proof fn lemma_modded_item(
        a: Map<Seq<char>, bool>,
        d: Map<Seq<char>, bool>,
        u: Map<Seq<char>, bool>,
        n: Seq<char>,
    )
        requires
            !catalog().contains_key(n),
            a.contains_key(n),
            a[n] == true,
            !d.contains_key(n),
            !u.contains_key(n),
        ensures
            reconcile(a, d, u).contains_key(n),
            reconcile(a, d, u)[n] == (MetaItem {
                alerted: true,
                discovered: false,
                unlocked: false,
                poss_alert: true,
                poss_discover: true,
                poss_unlock: true,
            }),
    {
    }
}

/// Strictly increasing name list: sorted with no repeats.
pub open spec fn sorted_strict(ns: Seq<String>) -> bool {
    forall|i: int, j: int|
        0 <= i < j < ns.len() ==> crate::order::lex_lt((#[trigger] ns[i])@, (#[trigger] ns[j])@)
}

/// Whether the name starts with one of the prefixes.
pub open spec fn matches_any(n: Seq<char>, ps: Seq<String>) -> bool {
    exists|i: int| 0 <= i < ps.len() && starts_with(n, (#[trigger] ps[i])@)
}

/// Insert a name into a strictly increasing list, keeping it so when the
/// name is fresh.
pub(crate) fn sorted_insert(v: &mut Vec<String>, x: String)
    ensures
        (sorted_strict(old(v)@) && !name_in(old(v)@, x@)) ==> ({
            &&& sorted_strict(final(v)@)
            &&& forall|n: Seq<char>|
                #[trigger] name_in(final(v)@, n) <==> (name_in(old(v)@, n) || n == x@)
        }),
{
    let len = v.len();
    let mut i: usize = 0;
    while i < len && crate::order::str_lex_le(v[i].as_str(), x.as_str())
        invariant
            len == v@.len(),
            i <= len,
            v@ == old(v)@,
            sorted_strict(old(v)@) ==> forall|t: int|
                0 <= t < i ==> crate::order::lex_le((#[trigger] v@[t])@, x@),
        decreases len - i,
    {
        i = i + 1;
    }
    let ghost stop = i as int;
    let ghost before = v@;
    let ghost fine = sorted_strict(before) && !name_in(before, x@);
    proof {
        if fine && stop < len {
            crate::order::lemma_lex_total(before[stop]@, x@);
        }
    }
    v.insert(i, x);
    proof {
        if fine {
            assert(v@ =~= before.take(stop) + seq![x] + before.skip(stop));
            if stop < len {
                crate::order::lemma_lex_total(before[stop]@, x@);
                assert(crate::order::lex_le(x@, before[stop]@));
            }
            assert forall|p: int, q: int| 0 <= p < q < v@.len() implies crate::order::lex_lt(
                (#[trigger] v@[p])@,
                (#[trigger] v@[q])@,
            ) by {
                if q < stop {
                    assert(v@[p] == before[p] && v@[q] == before[q]);
                } else if p < stop && q == stop {
                    assert(v@[p] == before[p] && v@[q] == x);
                    assert(crate::order::lex_le(before[p]@, x@));
                    if before[p]@ == x@ {
                        assert(name_in(before, x@)) by {
                            assert(before[p]@ == x@);
                        }
                    }
                } else if p < stop && q > stop {
                    assert(v@[p] == before[p] && v@[q] == before[q - 1]);
                    if p == q - 1 {
                        assert(false);
                    }
                } else if p == stop && q > stop {
                    assert(v@[p] == x && v@[q] == before[q - 1]);
                    assert(crate::order::lex_le(x@, before[stop]@));
                    if q - 1 > stop {
                        assert(crate::order::lex_lt(before[stop]@, before[q - 1]@));
                        crate::order::lemma_lex_trans(x@, before[stop]@, before[q - 1]@);
                    }
                    if x@ == before[q - 1]@ {
                        assert(name_in(before, x@)) by {
                            assert(before[q - 1]@ == x@);
                        }
                    }
                } else {
                    assert(p > stop);
                    assert(v@[p] == before[p - 1] && v@[q] == before[q - 1]);
                }
            }
            assert forall|n: Seq<char>| #[trigger] name_in(v@, n) <==> (name_in(before, n) || n
                == x@) by {
                if name_in(v@, n) {
                    let t = choose|t: int| 0 <= t < v@.len() && (#[trigger] v@[t])@ == n;
                    if t < stop {
                        assert(before[t]@ == n);
                    } else if t > stop {
                        assert(before[t - 1]@ == n);
                    }
                }
                if name_in(before, n) {
                    let t = choose|t: int| 0 <= t < before.len() && (#[trigger] before[t])@ == n;
                    if t < stop {
                        assert(v@[t]@ == n);
                    } else {
                        assert(v@[t + 1]@ == n);
                    }
                }
                if n == x@ {
                    assert(v@[stop]@ == n);
                }
            }
        }
    }
}

impl Meta {
    /// The names of the records that start with one of the prefixes, in
    /// increasing lexicographic order, each once.
    fn sorted_names_matching(&self, prefixes: &Vec<String>) -> (r: Vec<String>)
        ensures
            self.wf() ==> ({
                &&& sorted_strict(r@)
                &&& forall|n: Seq<char>|
                    #[trigger] name_in(r@, n) <==> (self.map_view().contains_key(n) && matches_any(
                        n,
                        prefixes@,
                    ))
            }),
    {
        let count = self.items.len();
        let mut out: Vec<String> = Vec::new();
        let mut t: usize = 0;
        while t < count
            invariant
                count == self.items@.len(),
                t <= count,
                self.wf() ==> ({
                    &&& sorted_strict(out@)
                    &&& forall|n: Seq<char>|
                        #[trigger] name_in(out@, n) <==> (exists|s: int|
                            0 <= s < t && (#[trigger] self.items@[s]).0@ == n && matches_any(
                                n,
                                prefixes@,
                            ))
                }),
            decreases count - t,
        {
            let plen = prefixes.len();
            let mut p: usize = 0;
            let mut hit = false;
            while p < plen && !hit
                invariant
                    plen == prefixes@.len(),
                    p <= plen,
                    t < count == self.items@.len(),
                    hit ==> matches_any(self.items@[t as int].0@, prefixes@),
                    !hit ==> forall|s: int|
                        0 <= s < p ==> !starts_with(
                            self.items@[t as int].0@,
                            (#[trigger] prefixes@[s])@,
                        ),
                decreases plen - p + (if hit { 0int } else { 1int }),
            {
                if str_starts_with(self.items[t].0.as_str(), prefixes[p].as_str()) {
                    hit = true;
                    proof {
                        assert(starts_with(self.items@[t as int].0@, prefixes@[p as int]@));
                    }
                } else {
                    p = p + 1;
                }
            }
            let ghost nm = self.items@[t as int].0@;
            let ghost prev_out = out@;
            if hit {
                proof {
                    if self.wf() {
                        assert(!name_in(out@, nm)) by {
                            if name_in(out@, nm) {
                                let s = choose|s: int|
                                    0 <= s < t && (#[trigger] self.items@[s]).0@ == nm
                                        && matches_any(nm, prefixes@);
                            }
                        }
                    }
                }
                sorted_insert(&mut out, self.items[t].0.clone());
            }
            proof {
                if self.wf() {
                    if !hit {
                        assert(!matches_any(nm, prefixes@)) by {
                            if matches_any(nm, prefixes@) {
                                let s = choose|s: int|
                                    0 <= s < prefixes@.len() && starts_with(
                                        nm,
                                        (#[trigger] prefixes@[s])@,
                                    );
                            }
                        }
                    }
                    assert forall|n: Seq<char>| #[trigger] name_in(out@, n) <==> (exists|s: int|
                        0 <= s < t + 1 && (#[trigger] self.items@[s]).0@ == n && matches_any(
                            n,
                            prefixes@,
                        )) by {
                        if name_in(out@, n) {
                            if hit && n == nm {
                                assert(self.items@[t as int].0@ == n && matches_any(n, prefixes@));
                            } else {
                                assert(name_in(prev_out, n));
                                let s = choose|s: int|
                                    0 <= s < t && (#[trigger] self.items@[s]).0@ == n
                                        && matches_any(n, prefixes@);
                            }
                        }
                        if exists|s: int|
                            0 <= s < t + 1 && (#[trigger] self.items@[s]).0@ == n && matches_any(
                                n,
                                prefixes@,
                            ) {
                            let s = choose|s: int|
                                0 <= s < t + 1 && (#[trigger] self.items@[s]).0@ == n
                                    && matches_any(n, prefixes@);
                            if s < t {
                                assert(name_in(prev_out, n)) by {
                                    assert(0 <= s < t && self.items@[s].0@ == n && matches_any(
                                        n,
                                        prefixes@,
                                    ));
                                }
                                assert(name_in(out@, n));
                            } else {
                                assert(n == nm && matches_any(n, prefixes@));
                                assert(hit);
                                assert(name_in(out@, n));
                            }
                        }
                    }
                }
            }
            t = t + 1;
        }
        proof {
            if self.wf() {
                assert forall|n: Seq<char>| #[trigger] name_in(out@, n) <==> (
                self.map_view().contains_key(n) && matches_any(n, prefixes@)) by {
                    lemma_pairs_map_domain(self.items@, n);
                }
            }
        }
        out
    }
}

/// With a single prefix in the list, matching it is just the prefix test.
proof fn lemma_matches_single(ps: Seq<String>, w: Seq<char>)
    requires
        ps.len() == 1,
        ps[0]@ == w,
    ensures
        forall|n: Seq<char>| #[trigger] matches_any(n, ps) == starts_with(n, w),
{
    assert forall|n: Seq<char>| #[trigger] matches_any(n, ps) == starts_with(n, w) by {
        if matches_any(n, ps) {
            let s = choose|s: int| 0 <= s < ps.len() && starts_with(n, (#[trigger] ps[s])@);
        }
        if starts_with(n, w) {
            assert(starts_with(n, ps[0]@));
        }
    }
}

impl Meta {
    /// All joker names (`j_` prefix), sorted.
    pub fn get_joker_names(&self) -> (r: Vec<String>)
        ensures
            self.wf() ==> (sorted_strict(r@) && forall|n: Seq<char>|
                #[trigger] name_in(r@, n) <==> (self.map_view().contains_key(n) && starts_with(
                    n,
                    "j_"@,
                ))),
    {
        let mut ps: Vec<String> = Vec::new();
        ps.push(String::from_str("j_"));
        proof {
            lemma_matches_single(ps@, "j_"@);
        }
        self.sorted_names_matching(&ps)
    }

    /// All voucher names (`v_` prefix), sorted.
    pub fn get_voucher_names(&self) -> (r: Vec<String>)
        ensures
            self.wf() ==> (sorted_strict(r@) && forall|n: Seq<char>|
                #[trigger] name_in(r@, n) <==> (self.map_view().contains_key(n) && starts_with(
                    n,
                    "v_"@,
                ))),
    {
        let mut ps: Vec<String> = Vec::new();
        ps.push(String::from_str("v_"));
        proof {
            lemma_matches_single(ps@, "v_"@);
        }
        self.sorted_names_matching(&ps)
    }

    /// All deck names (`b_` prefix), sorted.
    pub fn get_deck_names(&self) -> (r: Vec<String>)
        ensures
            self.wf() ==> (sorted_strict(r@) && forall|n: Seq<char>|
                #[trigger] name_in(r@, n) <==> (self.map_view().contains_key(n) && starts_with(
                    n,
                    "b_"@,
                ))),
    {
        let mut ps: Vec<String> = Vec::new();
        ps.push(String::from_str("b_"));
        proof {
            lemma_matches_single(ps@, "b_"@);
        }
        self.sorted_names_matching(&ps)
    }

    /// All card names (`c_` prefix), sorted.
    pub fn get_card_names(&self) -> (r: Vec<String>)
        ensures
            self.wf() ==> (sorted_strict(r@) && forall|n: Seq<char>|
                #[trigger] name_in(r@, n) <==> (self.map_view().contains_key(n) && starts_with(
                    n,
                    "c_"@,
                ))),
    {
        let mut ps: Vec<String> = Vec::new();
        ps.push(String::from_str("c_"));
        proof {
            lemma_matches_single(ps@, "c_"@);
        }
        self.sorted_names_matching(&ps)
    }

    /// All edition names (`e_` prefix), sorted.
    pub fn get_edition_names(&self) -> (r: Vec<String>)
        ensures
            self.wf() ==> (sorted_strict(r@) && forall|n: Seq<char>|
                #[trigger] name_in(r@, n) <==> (self.map_view().contains_key(n) && starts_with(
                    n,
                    "e_"@,
                ))),
    {
        let mut ps: Vec<String> = Vec::new();
        ps.push(String::from_str("e_"));
        proof {
            lemma_matches_single(ps@, "e_"@);
        }
        self.sorted_names_matching(&ps)
    }

    /// All names in the miscellaneous display group (decks, editions,
    /// blinds, tags and booster packs), sorted.
    pub fn get_misc_names(&self) -> (r: Vec<String>)
        ensures
            self.wf() ==> (sorted_strict(r@) && forall|n: Seq<char>|
                #[trigger] name_in(r@, n) <==> (self.map_view().contains_key(n) && (starts_with(
                    n,
                    "b_"@,
                ) || starts_with(n, "e_"@) || starts_with(n, "bl_"@) || starts_with(n, "tag_"@)
                    || starts_with(n, "p_"@)))),
    {
        let mut ps: Vec<String> = Vec::new();
        ps.push(String::from_str("b_"));
        ps.push(String::from_str("e_"));
        ps.push(String::from_str("bl_"));
        ps.push(String::from_str("tag_"));
        ps.push(String::from_str("p_"));
        proof {
            assert forall|n: Seq<char>| #[trigger] matches_any(n, ps@) == (starts_with(n, "b_"@)
                || starts_with(n, "e_"@) || starts_with(n, "bl_"@) || starts_with(n, "tag_"@)
                || starts_with(n, "p_"@)) by {
                if matches_any(n, ps@) {
                    let s = choose|s: int|
                        0 <= s < ps@.len() && starts_with(n, (#[trigger] ps@[s])@);
                }
                if starts_with(n, "b_"@) {
                    assert(starts_with(n, ps@[0]@));
                }
                if starts_with(n, "e_"@) {
                    assert(starts_with(n, ps@[1]@));
                }
                if starts_with(n, "bl_"@) {
                    assert(starts_with(n, ps@[2]@));
                }
                if starts_with(n, "tag_"@) {
                    assert(starts_with(n, ps@[3]@));
                }
                if starts_with(n, "p_"@) {
                    assert(starts_with(n, ps@[4]@));
                }
            }
        }
        self.sorted_names_matching(&ps)
    }
}

fn baseline_item_exec(d: CatalogDefaults) -> (r: MetaItem)
    ensures
        r == baseline_item(d),
{
    MetaItem {
        alerted: d.alerted.baseline(),
        discovered: d.discovered.baseline(),
        unlocked: d.unlocked.baseline(),
        poss_alert: d.alerted.applicable(),
        poss_discover: d.discovered.applicable(),
        poss_unlock: d.unlocked.applicable(),
    }
}

} // verus!
