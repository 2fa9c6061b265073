//! Name-keyed association vectors with a `Map` view.  The record set and
//! the decoded per-axis submaps both live in vectors of `(String, value)`
//! pairs whose names stay pairwise distinct; their contracts are stated over
//! the map each vector stands for.

use vstd::prelude::*;

verus! {

broadcast use vstd::std_specs::vec::group_vec_axioms, vstd::seq::group_seq_axioms, vstd::map::group_map_axioms;

/// The map a pair sequence stands for; a later pair with the same name wins.
pub open spec fn pairs_map<T>(s: Seq<(String, T)>) -> Map<Seq<char>, T>
    decreases s.len(),
{
    if s.len() == 0 {
        Map::empty()
    } else {
        pairs_map(s.drop_last()).insert(s.last().0@, s.last().1)
    }
}

/// No two pairs share a name.
pub open spec fn keys_unique<T>(s: Seq<(String, T)>) -> bool {
    forall|i: int, j: int| 0 <= i < j < s.len() ==> #[trigger] s[i].0@ != #[trigger] s[j].0@
}

/// The map's domain is exactly the names that occur in the sequence.
pub proof fn lemma_pairs_map_domain<T>(s: Seq<(String, T)>, n: Seq<char>)
    ensures
        pairs_map(s).contains_key(n) <==> exists|i: int| 0 <= i < s.len() && s[i].0@ == n,
    decreases s.len(),
{
    if s.len() > 0 {
        lemma_pairs_map_domain(s.drop_last(), n);
        if pairs_map(s).contains_key(n) {
            if s.last().0@ != n {
                let i = choose|i: int| 0 <= i < s.len() - 1 && s.drop_last()[i].0@ == n;
                assert(s[i].0@ == n);
            }
        }
        if exists|i: int| 0 <= i < s.len() && s[i].0@ == n {
            let i = choose|i: int| 0 <= i < s.len() && s[i].0@ == n;
            if i < s.len() - 1 {
                assert(s.drop_last()[i].0@ == n);
            }
        }
    }
}

/// With distinct names, each pair gives the map's value at its name.
pub proof fn lemma_pairs_map_at<T>(s: Seq<(String, T)>, i: int)
    requires
        keys_unique(s),
        0 <= i < s.len(),
    ensures
        pairs_map(s).contains_key(s[i].0@),
        pairs_map(s)[s[i].0@] == s[i].1,
    decreases s.len(),
{
    if i == s.len() - 1 {
    } else {
        assert(s.drop_last()[i] == s[i]);
        lemma_pairs_map_at(s.drop_last(), i);
        assert(s[i].0@ != s[s.len() - 1].0@);
    }
}

/// Appending a pair inserts it into the map.
pub proof fn lemma_pairs_map_push<T>(s: Seq<(String, T)>, name: String, val: T)
    ensures
        pairs_map(s.push((name, val))) == pairs_map(s).insert(name@, val),
{
    assert(s.push((name, val)).drop_last() =~= s);
}

/// Replacing the value of the pair that holds a name updates the map there.
pub proof fn lemma_pairs_map_update<T>(s: Seq<(String, T)>, i: int, name: String, val: T)
    requires
        keys_unique(s),
        0 <= i < s.len(),
        s[i].0@ == name@,
    ensures
        pairs_map(s.update(i, (name, val))) =~= pairs_map(s).insert(name@, val),
    decreases s.len(),
{
    let s2 = s.update(i, (name, val));
    if i == s.len() - 1 {
        assert(s2.drop_last() =~= s.drop_last());
    } else {
        assert(s2.drop_last() =~= s.drop_last().update(i, (name, val)));
        assert(s.drop_last()[i] == s[i]);
        lemma_pairs_map_update(s.drop_last(), i, name, val);
        assert(s[i].0@ != s[s.len() - 1].0@);
        assert(s2.last() == s.last());
        assert(pairs_map(s2) =~= pairs_map(s.drop_last()).insert(name@, val).insert(
            s.last().0@,
            s.last().1,
        ));
        assert(pairs_map(s).insert(name@, val) =~= pairs_map(s.drop_last()).insert(
            s.last().0@,
            s.last().1,
        ).insert(name@, val));
    }
}

/// Find the index of the pair that holds `name`, if any.
pub fn assoc_find<T>(v: &Vec<(String, T)>, name: &String) -> (r: Option<usize>)
    ensures
        match r {
            Some(i) => i < v@.len() && v@[i as int].0@ == name@,
            None => forall|i: int| 0 <= i < v@.len() ==> v@[i].0@ != name@,
        },
{
    let n = v.len();
    let mut i: usize = 0;
    while i < n
        invariant
            n == v@.len(),
            i <= n,
            forall|t: int| 0 <= t < i ==> v@[t].0@ != name@,
        decreases n - i,
    {
        if v[i].0 == *name {
            return Some(i);
        }
        i = i + 1;
    }
    None
}

/// Look a name up in the map the vector stands for.
pub fn assoc_get<T: Copy>(v: &Vec<(String, T)>, name: &String) -> (r: Option<T>)
    requires
        keys_unique(v@),
    ensures
        match r {
            Some(t) => pairs_map(v@).contains_key(name@) && pairs_map(v@)[name@] == t,
            None => !pairs_map(v@).contains_key(name@),
        },
{
    proof {
        lemma_pairs_map_domain(v@, name@);
    }
    match assoc_find(v, name) {
        Some(i) => {
            proof {
                lemma_pairs_map_at(v@, i as int);
            }
            Some(v[i].1)
        },
        None => None,
    }
}

/// Insert a pair, replacing the value if the name is already present.
/// Distinct names stay distinct and the map gains exactly this binding.
pub fn assoc_upsert<T: Copy>(v: &mut Vec<(String, T)>, name: String, val: T)
    requires
        keys_unique(old(v)@),
    ensures
        keys_unique(final(v)@),
        pairs_map(final(v)@) == pairs_map(old(v)@).insert(name@, val),
{
    match assoc_find(v, &name) {
        Some(i) => {
            let ghost s = v@;
            v[i] = (name, val);
            proof {
                assert(v@ =~= s.update(i as int, v@[i as int]));
                lemma_pairs_map_update(s, i as int, v@[i as int].0, val);
                assert(keys_unique(v@));
            }
        },
        None => {
            let ghost s = v@;
            v.push((name, val));
            proof {
                lemma_pairs_map_push(s, v@[v@.len() - 1].0, val);
                assert(keys_unique(v@));
            }
        },
    }
}

} // verus!
