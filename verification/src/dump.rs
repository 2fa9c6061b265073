//! Catalog-row dump: reads a save file and renders one source-style row per
//! item name, the form the compiled-in catalog's rows are written in.  Names
//! from known mod families are left out.

use vstd::prelude::*;

use crate::assoc::{keys_unique, pairs_map};
use crate::meta::{
    bool_map_of, mentioned, name_in, names_unique, sorted_strict, LoadOutcome,
};
use crate::value::{entries_view, subtable_spec, SpecKey, SpecVal, Value};
use crate::CoreError;

use vstd::string::StringExecFns;

verus! {

broadcast use vstd::std_specs::vec::group_vec_axioms, vstd::seq::group_seq_axioms, vstd::map::group_map_axioms;

/// The text `option_parser` renders an optional boolean as.
pub open spec fn opt_text(option: Option<bool>) -> Seq<char> {
    match option {
        Some(true) => "Some(true)"@,
        Some(false) => "Some(false)"@,
        None => "None"@,
    }
}

/// Render an optional boolean as source text.
pub fn option_parser(option: Option<bool>) -> (r: String)
    ensures
        r@ == opt_text(option),
{
    match option {
        Some(true) => String::from_str("Some(true)"),
        Some(false) => String::from_str("Some(false)"),
        None => String::from_str("None"),
    }
}

/// Whether `nd` occurs as a contiguous part of `h`.
pub open spec fn contains_sub(h: Seq<char>, nd: Seq<char>) -> bool {
    exists|i: int| 0 <= i <= h.len() - nd.len() && #[trigger] h.subrange(i, i + nd.len() as int) == nd
}

/// Substring test, by scanning every start position.
pub fn str_contains(h: &str, nd: &str) -> (r: bool)
    ensures
        r == contains_sub(h@, nd@),
{
    let hv = crate::chars::str_chars_vec(h);
    let nv = crate::chars::str_chars_vec(nd);
    let hlen = hv.len();
    let nlen = nv.len();
    if nlen == 0 {
        proof {
            assert(h@.subrange(0int, 0 + nd@.len() as int) =~= nd@);
        }
        return true;
    }
    if nlen > hlen {
        return false;
    }
    let last = hlen - nlen;
    let mut i: usize = 0;
    while i <= last
        invariant
            hv@ == h@,
            nv@ == nd@,
            hlen == h@.len(),
            nlen == nd@.len(),
            1 <= nlen <= hlen,
            last == hlen - nlen,
            i <= last + 1,
            forall|t: int|
                0 <= t < i ==> #[trigger] h@.subrange(t, t + nd@.len() as int) != nd@,
        decreases last + 1 - i,
    {
        let mut k: usize = 0;
        let mut ok = true;
        while k < nlen && ok
            invariant
                hv@ == h@,
                nv@ == nd@,
                hlen == h@.len(),
                nlen == nd@.len(),
                i + nlen <= hlen,
                k <= nlen,
                ok ==> forall|t: int| 0 <= t < k ==> h@[i + t] == nd@[t],
                !ok ==> h@.subrange(i as int, i + nd@.len() as int) != nd@,
            decreases nlen - k + (if ok { 1int } else { 0int }),
        {
            if hv[i + k] != nv[k] {
                proof {
                    if h@.subrange(i as int, i + nd@.len() as int) == nd@ {
                        assert(h@.subrange(i as int, i + nd@.len() as int)[k as int] == h@[i + k]);
                    }
                }
                ok = false;
            } else {
                k = k + 1;
            }
        }
        if ok {
            proof {
                assert(h@.subrange(i as int, i + nd@.len() as int) =~= nd@);
            }
            return true;
        }
        i = i + 1;
    }
    proof {
        if contains_sub(h@, nd@) {
            let t = choose|t: int|
                0 <= t <= h@.len() - nd@.len() && #[trigger] h@.subrange(t, t + nd@.len() as int)
                    == nd@;
        }
    }
    false
}

/// Whether the name belongs to one of the mod families the dump skips.
pub open spec fn excluded_name(n: Seq<char>) -> bool {
    contains_sub(n, "cry_"@) || contains_sub(n, "mp_"@) || contains_sub(n, "mtg_"@)
}

fn is_excluded(name: &String) -> (r: bool)
    ensures
        r == excluded_name(name@),
{
    str_contains(name.as_str(), "cry_") || str_contains(name.as_str(), "mp_") || str_contains(
        name.as_str(),
        "mtg_",
    )
}

/// One dump row: the quoted name and the three per-axis presence values.
pub open spec fn row_text(
    n: Seq<char>,
    a: Option<bool>,
    d: Option<bool>,
    u: Option<bool>,
) -> Seq<char> {
    "(\""@ + n + "\", "@ + opt_text(a) + ", "@ + opt_text(d) + ", "@ + opt_text(u) + "),"@
}

fn build_row(name: &String, a: Option<bool>, d: Option<bool>, u: Option<bool>) -> (r: String)
    ensures
        r@ == row_text(name@, a, d, u),
{
    let mut s = String::from_str("(\"");
    s.append(name.as_str());
    s.append("\", ");
    let pa = option_parser(a);
    s.append(pa.as_str());
    s.append(", ");
    let pd = option_parser(d);
    s.append(pd.as_str());
    s.append(", ");
    let pu = option_parser(u);
    s.append(pu.as_str());
    s.append("),");
    s
}

/// The presence of a name in a decoded per-axis map.
pub open spec fn presence(m: Map<Seq<char>, bool>, n: Seq<char>) -> Option<bool> {
    if m.contains_key(n) {
        Some(m[n])
    } else {
        None
    }
}

/// The decoded per-axis maps a byte stream carries, step by step through
/// the load pipeline.
pub open spec fn decoded_maps(
    bytes: Seq<u8>,
    ma: Map<Seq<char>, bool>,
    md: Map<Seq<char>, bool>,
    mu: Map<Seq<char>, bool>,
) -> bool {
    exists|es: Seq<(SpecKey, SpecVal)>, ae: Seq<(SpecKey, SpecVal)>, de: Seq<(SpecKey, SpecVal)>, ue: Seq<(SpecKey, SpecVal)>|
        #![trigger subtable_spec(es, "alerted"@), bool_map_of(ae), bool_map_of(de), bool_map_of(ue)]
        {
            &&& crate::codec::doc_outcome(bytes) == crate::codec::DocOutcome::Parsed(
                SpecVal::Table(es),
            )
            &&& subtable_spec(es, "alerted"@) == Some(ae)
            &&& subtable_spec(es, "discovered"@) == Some(de)
            &&& subtable_spec(es, "unlocked"@) == Some(ue)
            &&& bool_map_of(ae) == Some(ma)
            &&& bool_map_of(de) == Some(md)
            &&& bool_map_of(ue) == Some(mu)
        }
}

/// What a successful dump holds: the names mentioned by the file that are
/// not excluded, sorted, each rendered as its row.
pub open spec fn rows_ok(
    rows: Seq<String>,
    ma: Map<Seq<char>, bool>,
    md: Map<Seq<char>, bool>,
    mu: Map<Seq<char>, bool>,
    ns: Seq<String>,
) -> bool {
    &&& sorted_strict(ns)
    &&& forall|n: Seq<char>|
        #[trigger] name_in(ns, n) <==> (mentioned(n, ma, md, mu) && !excluded_name(n))
    &&& rows.len() == ns.len()
    &&& forall|i: int|
        0 <= i < rows.len() ==> (#[trigger] rows[i])@ == row_text(
            ns[i]@,
            presence(ma, ns[i]@),
            presence(md, ns[i]@),
            presence(mu, ns[i]@),
        )
}

/// A successful dump's contract: some decoded per-axis maps and name list
/// witness the rows.
pub open spec fn dump_ok(bytes: Seq<u8>, rows: Seq<String>) -> bool {
    exists|ma: Map<Seq<char>, bool>, md: Map<Seq<char>, bool>, mu: Map<Seq<char>, bool>, ns: Seq<String>|
        #[trigger] decoded_maps(bytes, ma, md, mu) && #[trigger] rows_ok(rows, ma, md, mu, ns)
}

/// Read a save file and render one catalog-style row per mentioned item
/// name, mod families excluded, sorted by name.  The error cases are those
/// of loading the file.
pub fn make_meta_defaults(data: &[u8]) -> (r: Result<Vec<String>, CoreError>)
    ensures
        match r {
            Ok(rows) => dump_ok(data@, rows@),
            Err(e) => match e {
                CoreError::CorruptStream => crate::meta::load_outcome(data@) is CorruptStream,
                CoreError::InvalidEncoding => crate::meta::load_outcome(data@) is InvalidEncoding,
                CoreError::ParseError => crate::meta::load_outcome(data@) is ParseError,
                CoreError::MissingSubtable(nm) => crate::meta::load_outcome(data@)
                    == LoadOutcome::MissingSubtable(nm@),
            },
        },
{
    let root = match crate::codec::data_as_table(data) {
        Ok(v) => v,
        Err(e) => {
            return Err(e);
        },
    };
    match &root {
        Value::Table(_) => (),
        _ => {
            return Err(CoreError::ParseError);
        },
    };
    let at = match crate::value::lookup_subtable(&root, "alerted") {
        Ok(t) => t,
        Err(e) => {
            return Err(e);
        },
    };
    let dt = match crate::value::lookup_subtable(&root, "discovered") {
        Ok(t) => t,
        Err(e) => {
            return Err(e);
        },
    };
    let ut = match crate::value::lookup_subtable(&root, "unlocked") {
        Ok(t) => t,
        Err(e) => {
            return Err(e);
        },
    };
    let ap = match crate::meta::extract_bool_pairs(at) {
        Some(v) => v,
        None => {
            return Err(CoreError::ParseError);
        },
    };
    let dp = match crate::meta::extract_bool_pairs(dt) {
        Some(v) => v,
        None => {
            return Err(CoreError::ParseError);
        },
    };
    let up = match crate::meta::extract_bool_pairs(ut) {
        Some(v) => v,
        None => {
            return Err(CoreError::ParseError);
        },
    };
    let ghost ma = pairs_map(ap@);
    let ghost md = pairs_map(dp@);
    let ghost mu = pairs_map(up@);
    let mut names: Vec<String> = Vec::new();
    crate::meta::push_missing_names(&mut names, &ap);
    crate::meta::push_missing_names(&mut names, &dp);
    crate::meta::push_missing_names(&mut names, &up);
    let mut sorted: Vec<String> = Vec::new();
    let count = names.len();
    let mut i: usize = 0;
    while i < count
        invariant
            count == names@.len(),
            i <= count,
            names_unique(names@),
            forall|n: Seq<char>| #[trigger] name_in(names@, n) <==> mentioned(n, ma, md, mu),
            sorted_strict(sorted@),
            forall|n: Seq<char>|
                #[trigger] name_in(sorted@, n) <==> (exists|t: int|
                    0 <= t < i && (#[trigger] names@[t])@ == n && !excluded_name(n)),
        decreases count - i,
    {
        let ghost nm = names@[i as int]@;
        if !is_excluded(&names[i]) {
            proof {
                assert(!name_in(sorted@, nm)) by {
                    if name_in(sorted@, nm) {
                        let t = choose|t: int|
                            0 <= t < i && (#[trigger] names@[t])@ == nm && !excluded_name(nm);
                    }
                }
            }
            crate::meta::sorted_insert(&mut sorted, names[i].clone());
        }
        proof {
            assert forall|n: Seq<char>| #[trigger] name_in(sorted@, n) <==> (exists|t: int|
                0 <= t < i + 1 && (#[trigger] names@[t])@ == n && !excluded_name(n)) by {
                if name_in(sorted@, n) && !(exists|t: int|
                    0 <= t < i && (#[trigger] names@[t])@ == n && !excluded_name(n)) {
                    assert(n == nm && !excluded_name(n));
                    assert(names@[i as int]@ == n);
                }
                if exists|t: int|
                    0 <= t < i + 1 && (#[trigger] names@[t])@ == n && !excluded_name(n) {
                    let t = choose|t: int|
                        0 <= t < i + 1 && (#[trigger] names@[t])@ == n && !excluded_name(n);
                    if t < i {
                        assert(name_in(sorted@, n));
                    } else {
                        assert(n == nm);
                    }
                }
            }
        }
        i = i + 1;
    }
    proof {
        assert forall|n: Seq<char>| #[trigger] name_in(sorted@, n) <==> (mentioned(n, ma, md, mu)
            && !excluded_name(n)) by {
            if mentioned(n, ma, md, mu) && !excluded_name(n) {
                assert(name_in(names@, n));
                let t = choose|t: int| 0 <= t < names@.len() && (#[trigger] names@[t])@ == n;
            }
            if name_in(sorted@, n) {
                let t = choose|t: int|
                    0 <= t < count && (#[trigger] names@[t])@ == n && !excluded_name(n);
                assert(name_in(names@, n)) by {
                    assert(names@[t]@ == n);
                }
            }
        }
    }
    let mut rows: Vec<String> = Vec::new();
    let total = sorted.len();
    let mut k: usize = 0;
    while k < total
        invariant
            total == sorted@.len(),
            k <= total,
            keys_unique(ap@),
            keys_unique(dp@),
            keys_unique(up@),
            ma == pairs_map(ap@),
            md == pairs_map(dp@),
            mu == pairs_map(up@),
            rows@.len() == k,
            forall|t: int|
                0 <= t < k ==> (#[trigger] rows@[t])@ == row_text(
                    sorted@[t]@,
                    presence(ma, sorted@[t]@),
                    presence(md, sorted@[t]@),
                    presence(mu, sorted@[t]@),
                ),
        decreases total - k,
    {
        let a = crate::assoc::assoc_get(&ap, &sorted[k]);
        let d = crate::assoc::assoc_get(&dp, &sorted[k]);
        let u = crate::assoc::assoc_get(&up, &sorted[k]);
        let row = build_row(&sorted[k], a, d, u);
        rows.push(row);
        k = k + 1;
    }
    proof {
        let es = (match root@ {
            SpecVal::Table(x) => x,
            _ => Seq::empty(),
        });
        assert(root@ == SpecVal::Table(es));
        assert(crate::codec::doc_outcome(data@) == crate::codec::DocOutcome::Parsed(
            SpecVal::Table(es),
        ));
        assert(crate::value::subtable_spec(es, "alerted"@) == Some(entries_view(at@)));
        assert(crate::value::subtable_spec(es, "discovered"@) == Some(entries_view(dt@)));
        assert(crate::value::subtable_spec(es, "unlocked"@) == Some(entries_view(ut@)));
        assert(bool_map_of(entries_view(at@)) == Some(ma));
        assert(bool_map_of(entries_view(dt@)) == Some(md));
        assert(bool_map_of(entries_view(ut@)) == Some(mu));
        assert(decoded_maps(data@, ma, md, mu));
        assert(rows_ok(rows@, ma, md, mu, sorted@));
        assert(dump_ok(data@, rows@));
    }
    Ok(rows)
}

} // verus!
