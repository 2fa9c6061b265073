//! The generic nested value produced by parsing a table literal: tables
//! (ordered key/value pair lists), strings, non-negative integers and
//! booleans, together with its mathematical view.

use vstd::prelude::*;

verus! {

/// A table key: either a quoted string or a non-negative integer.
#[derive(Debug, PartialEq)]
pub enum TableKey {
    Text(String),
    Num(u64),
}

/// A parsed table-literal value.
///
/// A table is the ordered list of its `[key]=value,` entries; a later entry
/// with the same key shadows an earlier one, as in a Lua table constructor.
#[derive(Debug, PartialEq)]
pub enum Value {
    Table(Vec<(TableKey, Value)>),
    Text(String),
    Num(u64),
    Bool(bool),
}

/// Mathematical view of a `TableKey`.
pub enum SpecKey {
    Text(Seq<char>),
    Num(u64),
}

/// Mathematical view of a `Value`.
pub enum SpecVal {
    Table(Seq<(SpecKey, SpecVal)>),
    Text(Seq<char>),
    Num(u64),
    Bool(bool),
}

pub open spec fn key_view(k: TableKey) -> SpecKey {
    match k {
        TableKey::Text(s) => SpecKey::Text(s@),
        TableKey::Num(n) => SpecKey::Num(n),
    }
}

pub open spec fn val_view(v: Value) -> SpecVal
    decreases v,
{
    match v {
        Value::Table(entries) => SpecVal::Table(entries_view(entries@)),
        Value::Text(s) => SpecVal::Text(s@),
        Value::Num(n) => SpecVal::Num(n),
        Value::Bool(b) => SpecVal::Bool(b),
    }
}

pub open spec fn entries_view(s: Seq<(TableKey, Value)>) -> Seq<(SpecKey, SpecVal)>
    decreases s,
{
    if s.len() == 0 {
        Seq::empty()
    } else {
        seq![(key_view(s[0].0), val_view(s[0].1))] + entries_view(s.drop_first())
    }
}

impl View for TableKey {
    type V = SpecKey;

    open spec fn view(&self) -> SpecKey {
        key_view(*self)
    }
}

impl View for Value {
    type V = SpecVal;

    open spec fn view(&self) -> SpecVal {
        val_view(*self)
    }
}

/// The value the table leaves at a string key, as a Lua constructor would:
/// a later assignment to the same key wins.
pub open spec fn lookup_spec(es: Seq<(SpecKey, SpecVal)>, name: Seq<char>) -> Option<SpecVal>
    decreases es.len(),
{
    if es.len() == 0 {
        None
    } else if es.last().0 == SpecKey::Text(name) {
        Some(es.last().1)
    } else {
        lookup_spec(es.drop_last(), name)
    }
}

/// The named subtable's entries, when the key is present and holds a table.
pub open spec fn subtable_spec(es: Seq<(SpecKey, SpecVal)>, name: Seq<char>) -> Option<
    Seq<(SpecKey, SpecVal)>,
> {
    match lookup_spec(es, name) {
        Some(SpecVal::Table(inner)) => Some(inner),
        _ => None,
    }
}

/// Extract a named top-level subtable.  Fails with `MissingSubtable(name)`
/// exactly when the key is absent from the root table, or present but not
/// itself a table; a non-table root has no keys at all.
pub fn lookup_subtable<'a>(root: &'a Value, name: &str) -> (r: Result<
    &'a Vec<(TableKey, Value)>,
    crate::CoreError,
>)
    ensures
        match r {
            Ok(t) => root@ matches SpecVal::Table(es) && subtable_spec(es, name@) == Some(
                entries_view(t@),
            ),
            Err(e) => e matches crate::CoreError::MissingSubtable(nm) && nm@ == name@ && (root@
                matches SpecVal::Table(es) ==> subtable_spec(es, name@) is None),
        },
{
    let owned = name.to_owned();
    let entries = match root {
        Value::Table(entries) => entries,
        _ => {
            return Err(crate::CoreError::MissingSubtable(owned));
        },
    };
    let ghost ev = entries_view(entries@);
    proof {
        lemma_entries_view_index(entries@);
        assert(ev.take(entries@.len() as int) =~= ev);
    }
    let mut idx = entries.len();
    loop
        invariant
            idx <= entries@.len(),
            ev == entries_view(entries@),
            ev.len() == entries@.len(),
            forall|t: int|
                0 <= t < entries@.len() ==> #[trigger] ev[t] == (key_view(entries@[t].0), val_view(
                    entries@[t].1,
                )),
            owned@ == name@,
            lookup_spec(ev.take(idx as int), name@) == lookup_spec(ev, name@),
            root@ matches SpecVal::Table(es) && es == ev,
        decreases idx,
    {
        if idx == 0 {
            return Err(crate::CoreError::MissingSubtable(owned));
        }
        idx = idx - 1;
        proof {
            assert(ev.take(idx + 1).drop_last() =~= ev.take(idx as int));
            assert(ev.take(idx + 1).last() == ev[idx as int]);
        }
        let matched = match &entries[idx].0 {
            TableKey::Text(s) => *s == owned,
            TableKey::Num(_) => false,
        };
        if matched {
            match &entries[idx].1 {
                Value::Table(inner) => {
                    return Ok(inner);
                },
                _ => {
                    return Err(crate::CoreError::MissingSubtable(owned));
                },
            }
        }
    }
}

/// The view of a pair sequence is entry-wise: element `i` of the view is the
/// view of element `i`.
pub proof fn lemma_entries_view_index(s: Seq<(TableKey, Value)>)
    ensures
        entries_view(s).len() == s.len(),
        forall|i: int|
            0 <= i < s.len() ==> #[trigger] entries_view(s)[i] == (key_view(s[i].0), val_view(
                s[i].1,
            )),
    decreases s,
{
    if s.len() > 0 {
        lemma_entries_view_index(s.drop_first());
    }
}

/// Appending one entry extends the view by that entry's view.
pub proof fn lemma_entries_view_push(s: Seq<(TableKey, Value)>, e: (TableKey, Value))
    ensures
        entries_view(s.push(e)) =~= entries_view(s).push((key_view(e.0), val_view(e.1))),
{
    lemma_entries_view_index(s.push(e));
    lemma_entries_view_index(s);
}

} // verus!
