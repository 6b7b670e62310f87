//! Association lists with unique keys, the representation behind every
//! mapping the store keeps, together with their abstraction to `Map` and the
//! lemmas that connect scanning a list to looking a key up in the map.

use vstd::prelude::*;
use vstd::utf8::{encode_utf8, encode_utf8_decode_utf8};

verus! {

/// No two entries share a key (string keys compare as character sequences).
pub open spec fn unique_str_keys<V>(s: Seq<(String, V)>) -> bool {
    forall|i: int, j: int| 0 <= i < j < s.len() ==> s[i].0@ != s[j].0@
}

/// No two entries share a key.
pub open spec fn unique_usize_keys<V>(s: Seq<(usize, V)>) -> bool {
    forall|i: int, j: int| 0 <= i < j < s.len() ==> s[i].0 != s[j].0
}

/// The mapping an entry list stands for; later entries win, which does not
/// matter once keys are unique.
pub open spec fn str_map<V>(s: Seq<(String, V)>) -> Map<Seq<char>, V>
    decreases s.len(),
{
    if s.len() == 0 {
        Map::empty()
    } else {
        str_map(s.drop_last()).insert(s.last().0@, s.last().1)
    }
}

/// The mapping an entry list stands for; later entries win, which does not
/// matter once keys are unique.
pub open spec fn usize_map<V>(s: Seq<(usize, V)>) -> Map<usize, V>
    decreases s.len(),
{
    if s.len() == 0 {
        Map::empty()
    } else {
        usize_map(s.drop_last()).insert(s.last().0, s.last().1)
    }
}

pub proof fn lemma_str_map_contains<V>(s: Seq<(String, V)>)
    ensures
        forall|k: Seq<char>|
            str_map(s).contains_key(k) <==> (exists|i: int| 0 <= i < s.len() && s[i].0@ == k),
    decreases s.len(),
{
    if s.len() > 0 {
        lemma_str_map_contains(s.drop_last());
        assert forall|k: Seq<char>| str_map(s).contains_key(k) implies (exists|i: int|
            0 <= i < s.len() && s[i].0@ == k) by {
            if s.last().0@ == k {
                assert(s[s.len() - 1].0@ == k);
            } else {
                assert(str_map(s.drop_last()).contains_key(k));
                let i = choose|i: int| 0 <= i < s.drop_last().len() && s.drop_last()[i].0@ == k;
                assert(s.drop_last()[i] == s[i]);
                assert(s[i].0@ == k);
            }
        }
        assert forall|k: Seq<char>| (exists|i: int| 0 <= i < s.len() && s[i].0@ == k) implies
            str_map(s).contains_key(k) by {
            let i = choose|i: int| 0 <= i < s.len() && s[i].0@ == k;
            if i < s.len() - 1 {
                assert(s.drop_last()[i].0@ == k);
                assert(exists|j: int| 0 <= j < s.drop_last().len() && s.drop_last()[j].0@ == k);
                assert(str_map(s.drop_last()).contains_key(k));
            }
        }
    }
}

pub proof fn lemma_usize_map_contains<V>(s: Seq<(usize, V)>)
    ensures
        forall|k: usize|
            usize_map(s).contains_key(k) <==> (exists|i: int| 0 <= i < s.len() && s[i].0 == k),
    decreases s.len(),
{
    if s.len() > 0 {
        lemma_usize_map_contains(s.drop_last());
        assert forall|k: usize| usize_map(s).contains_key(k) implies (exists|i: int|
            0 <= i < s.len() && s[i].0 == k) by {
            if s.last().0 == k {
                assert(s[s.len() - 1].0 == k);
            } else {
                assert(usize_map(s.drop_last()).contains_key(k));
                let i = choose|i: int| 0 <= i < s.drop_last().len() && s.drop_last()[i].0 == k;
                assert(s.drop_last()[i] == s[i]);
                assert(s[i].0 == k);
            }
        }
        assert forall|k: usize| (exists|i: int| 0 <= i < s.len() && s[i].0 == k) implies
            usize_map(s).contains_key(k) by {
            let i = choose|i: int| 0 <= i < s.len() && s[i].0 == k;
            if i < s.len() - 1 {
                assert(s.drop_last()[i].0 == k);
                assert(exists|j: int| 0 <= j < s.drop_last().len() && s.drop_last()[j].0 == k);
                assert(usize_map(s.drop_last()).contains_key(k));
            }
        }
    }
}

/// With unique keys, the map sends each entry's key to that entry's value.
pub proof fn lemma_str_map_index<V>(s: Seq<(String, V)>, i: int)
    requires
        unique_str_keys(s),
        0 <= i < s.len(),
    ensures
        str_map(s).contains_key(s[i].0@),
        str_map(s)[s[i].0@] == s[i].1,
    decreases s.len(),
{
    if i == s.len() - 1 {
    } else {
        assert(unique_str_keys(s.drop_last()));
        lemma_str_map_index(s.drop_last(), i);
        assert(s[i].0@ != s.last().0@);
    }
}

/// With unique keys, the map sends each entry's key to that entry's value.
pub proof fn lemma_usize_map_index<V>(s: Seq<(usize, V)>, i: int)
    requires
        unique_usize_keys(s),
        0 <= i < s.len(),
    ensures
        usize_map(s).contains_key(s[i].0),
        usize_map(s)[s[i].0] == s[i].1,
    decreases s.len(),
{
    if i == s.len() - 1 {
    } else {
        assert(unique_usize_keys(s.drop_last()));
        lemma_usize_map_index(s.drop_last(), i);
        assert(s[i].0 != s.last().0);
    }
}

/// Appending a fresh entry inserts it into the map.
pub proof fn lemma_str_map_push<V>(s: Seq<(String, V)>, p: (String, V))
    ensures
        str_map(s.push(p)) == str_map(s).insert(p.0@, p.1),
{
    assert(s.push(p).drop_last() =~= s);
    assert(s.push(p).last() == p);
}

/// Appending a fresh entry inserts it into the map.
pub proof fn lemma_usize_map_push<V>(s: Seq<(usize, V)>, p: (usize, V))
    ensures
        usize_map(s.push(p)) == usize_map(s).insert(p.0, p.1),
{
    assert(s.push(p).drop_last() =~= s);
    assert(s.push(p).last() == p);
}

/// Overwriting the value of entry `i` updates the map at that entry's key.
pub proof fn lemma_usize_map_update<V>(s: Seq<(usize, V)>, i: int, w: V)
    requires
        unique_usize_keys(s),
        0 <= i < s.len(),
    ensures
        usize_map(s.update(i, (s[i].0, w))) == usize_map(s).insert(s[i].0, w),
    decreases s.len(),
{
    let t = s.update(i, (s[i].0, w));
    if i == s.len() - 1 {
        assert(t.drop_last() =~= s.drop_last());
        assert(usize_map(t) == usize_map(s.drop_last()).insert(s[i].0, w));
        assert(usize_map(s).insert(s[i].0, w) == usize_map(s.drop_last()).insert(
            s.last().0,
            s.last().1,
        ).insert(s[i].0, w));
        assert(usize_map(s.drop_last()).insert(s.last().0, s.last().1).insert(s[i].0, w)
            =~= usize_map(s.drop_last()).insert(s[i].0, w));
    } else {
        assert(unique_usize_keys(s.drop_last()));
        lemma_usize_map_update(s.drop_last(), i, w);
        assert(t.drop_last() =~= s.drop_last().update(i, (s[i].0, w)));
        assert(t.last() == s.last());
        assert(usize_map(t) == usize_map(s.drop_last()).insert(s[i].0, w).insert(
            s.last().0,
            s.last().1,
        ));
        assert(s[i].0 != s.last().0);
        assert(usize_map(s.drop_last()).insert(s[i].0, w).insert(s.last().0, s.last().1)
            =~= usize_map(s.drop_last()).insert(s.last().0, s.last().1).insert(s[i].0, w));
    }
}

/// Inserting first and abstracting the values afterwards is the same as
/// abstracting first and inserting the abstracted value.
pub proof fn lemma_map_values_insert<K, V, W>(m: Map<K, V>, f: spec_fn(V) -> W, k: K, v: V)
    ensures
        m.insert(k, v).map_values(f) == m.map_values(f).insert(k, f(v)),
{
    assert(m.insert(k, v).map_values(f) =~= m.map_values(f).insert(k, f(v)));
}

/// String equality as equality of the character sequences, proved through
/// the injectivity of the UTF-8 encoding.
pub fn str_eq(a: &str, b: &str) -> (r: bool)
    ensures
        r == (a@ == b@),
{
    let av = a.as_bytes_vec();
    let bv = b.as_bytes_vec();
    proof {
        if a@ == b@ {
            assert(av@ =~= bv@);
        }
    }
    if av.len() != bv.len() {
        return false;
    }
    let n = av.len();
    let mut i: usize = 0;
    while i < n
        invariant
            n == av.len() == bv.len(),
            i <= n,
            av@ == encode_utf8(a@),
            bv@ == encode_utf8(b@),
            a@ == b@ ==> av@ =~= bv@,
            forall|j: int| 0 <= j < i ==> av@[j] == bv@[j],
        decreases n - i,
    {
        if av[i] != bv[i] {
            return false;
        }
        i += 1;
    }
    proof {
        assert(av@ =~= bv@);
        encode_utf8_decode_utf8(a@);
        encode_utf8_decode_utf8(b@);
    }
    true
}

/// Index of the first entry whose key reads as `name`, if any.
pub fn find_str<V>(v: &Vec<(String, V)>, name: &str) -> (r: Option<usize>)
    ensures
        match r {
            Some(i) => i < v@.len() && v@[i as int].0@ == name@,
            None => forall|i: int| 0 <= i < v@.len() ==> v@[i].0@ != name@,
        },
{
    let n = v.len();
    let mut i: usize = 0;
    while i < n
        invariant
            n == v@.len(),
            i <= n,
            forall|j: int| 0 <= j < i ==> v@[j].0@ != name@,
        decreases n - i,
    {
        let entry = &v[i];
        if str_eq(entry.0.as_str(), name) {
            return Some(i);
        }
        i += 1;
    }
    None
}

/// Index of the first entry with key `key`, if any.
pub fn find_usize<V>(v: &Vec<(usize, V)>, key: usize) -> (r: Option<usize>)
    ensures
        match r {
            Some(i) => i < v@.len() && v@[i as int].0 == key,
            None => forall|i: int| 0 <= i < v@.len() ==> v@[i].0 != key,
        },
{
    let n = v.len();
    let mut i: usize = 0;
    while i < n
        invariant
            n == v@.len(),
            i <= n,
            forall|j: int| 0 <= j < i ==> v@[j].0 != key,
        decreases n - i,
    {
        let entry = &v[i];
        if entry.0 == key {
            return Some(i);
        }
        i += 1;
    }
    None
}

} // verus!
