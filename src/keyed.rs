use vstd::prelude::*;
use crate::world::string_seqs;

verus! {

/// The value of the first entry whose key is `k`, if any.
pub open spec fn lookup<V>(s: Seq<(Seq<char>, V)>, k: Seq<char>) -> Option<V>
    decreases s.len(),
{
    if s.len() == 0 {
        None
    } else if s[0].0 == k {
        Some(s[0].1)
    } else {
        lookup(s.drop_first(), k)
    }
}

/// `k` is the key of some entry.
pub open spec fn has_key<V>(s: Seq<(Seq<char>, V)>, k: Seq<char>) -> bool {
    lookup(s, k) is Some
}

/// No two entries share a key.
pub open spec fn unique_keys<V>(s: Seq<(Seq<char>, V)>) -> bool {
    forall|i: int, j: int| 0 <= i < s.len() && 0 <= j < s.len() && i != j ==> s[i].0 != s[j].0
}

/// Replacing the value of the first entry with key `k` updates `lookup` at `k` only.
pub proof fn lemma_lookup_update<V>(s: Seq<(Seq<char>, V)>, i: int, k: Seq<char>, v: V, q: Seq<char>)
    requires
        0 <= i < s.len(),
        s[i].0 == k,
        forall|j: int| 0 <= j < i ==> s[j].0 != k,
    ensures
        lookup(s.update(i, (k, v)), q) == if q == k { Some(v) } else { lookup(s, q) },
    decreases s.len(),
{
    let u = s.update(i, (k, v));
    if i > 0 {
        assert(u[0] == s[0]);
        if s[0].0 != q {
            assert(u.drop_first() =~= s.drop_first().update(i - 1, (k, v)));
            lemma_lookup_update(s.drop_first(), i - 1, k, v, q);
        }
    } else {
        assert(u.drop_first() =~= s.drop_first());
    }
}

/// Appending an entry with a new key `k` extends `lookup` at `k` only.
pub proof fn lemma_lookup_push<V>(s: Seq<(Seq<char>, V)>, k: Seq<char>, v: V, q: Seq<char>)
    requires
        lookup(s, k) is None,
    ensures
        lookup(s.push((k, v)), q) == if q == k { Some(v) } else { lookup(s, q) },
    decreases s.len(),
{
    let p = s.push((k, v));
    if s.len() > 0 {
        assert(p[0] == s[0]);
        assert(s[0].0 != k);
        if s[0].0 != q {
            assert(p.drop_first() =~= s.drop_first().push((k, v)));
            lemma_lookup_push(s.drop_first(), k, v, q);
            assert(lookup(p, q) == lookup(p.drop_first(), q));
        }
    } else {
        assert(p[0] == (k, v));
        assert(p.drop_first() =~= Seq::<(Seq<char>, V)>::empty());
        assert(lookup(p.drop_first(), q) is None);
    }
}

/// `lookup` returns the value of the first entry with key `k`.
pub proof fn lemma_lookup_first<V>(s: Seq<(Seq<char>, V)>, k: Seq<char>, i: int)
    requires
        0 <= i < s.len(),
        s[i].0 == k,
        forall|j: int| 0 <= j < i ==> s[j].0 != k,
    ensures
        lookup(s, k) == Some(s[i].1),
    decreases s.len(),
{
    if i > 0 {
        lemma_lookup_first(s.drop_first(), k, i - 1);
    }
}

/// `lookup` finds nothing when no entry has key `k`.
pub proof fn lemma_lookup_none<V>(s: Seq<(Seq<char>, V)>, k: Seq<char>)
    requires
        forall|j: int| 0 <= j < s.len() ==> s[j].0 != k,
    ensures
        lookup(s, k) is None,
    decreases s.len(),
{
    if s.len() > 0 {
        lemma_lookup_none(s.drop_first(), k);
    }
}

/// The index of the first entry whose key is `key`.
pub fn find_entry<V>(entries: &Vec<(String, V)>, key: &String) -> (r: Option<usize>)
    ensures
        match r {
            Some(i) => i < entries.len() && entries@[i as int].0@ == key@
                && forall|j: int| 0 <= j < i ==> entries@[j].0@ != key@,
            None => forall|j: int| 0 <= j < entries.len() ==> entries@[j].0@ != key@,
        },
{
    let mut i: usize = 0;
    while i < entries.len()
        invariant
            i <= entries.len(),
            forall|j: int| 0 <= j < i ==> entries@[j].0@ != key@,
        decreases entries.len() - i,
    {
        if entries[i].0 == *key {
            return Some(i);
        }
        i = i + 1;
    }
    None
}

/// Adds `name` to a duplicate-free list of names unless it is there.
pub fn add_name(names: &mut Vec<String>, name: &String)
    requires
        string_seqs(old(names)@).no_duplicates(),
    ensures
        string_seqs(final(names)@).no_duplicates(),
        string_seqs(final(names)@).to_set() == string_seqs(old(names)@).to_set().insert(name@),
{
    let ghost before = string_seqs(names@);
    let mut i: usize = 0;
    while i < names.len()
        invariant
            i <= names.len(),
            before == string_seqs(names@),
            before.no_duplicates(),
            names@ == old(names)@,
            forall|k: int| 0 <= k < i ==> before[k] != name@,
        decreases names.len() - i,
    {
        assert(before[i as int] == names@[i as int]@);
        if names[i] == *name {
            assert(before.to_set() =~= before.to_set().insert(name@));
            return;
        }
        i = i + 1;
    }
    names.push(name.clone());
    assert(string_seqs(names@) =~= before.push(name@));
    proof {
        before.lemma_push_to_set_commute(name@);
    }
}

/// Appending an entry leaves `lookup` unchanged where it already finds a
/// value, and finds the new value at a new key.
pub proof fn lemma_lookup_push_any<V>(s: Seq<(Seq<char>, V)>, e: (Seq<char>, V), q: Seq<char>)
    ensures
        lookup(s.push(e), q) == if lookup(s, q) is Some { lookup(s, q) } else if q == e.0 { Some(e.1) } else { None::<V> },
    decreases s.len(),
{
    let p = s.push(e);
    if s.len() > 0 {
        assert(p[0] == s[0]);
        if s[0].0 != q {
            assert(p.drop_first() =~= s.drop_first().push(e));
            lemma_lookup_push_any(s.drop_first(), e, q);
            assert(lookup(p, q) == lookup(p.drop_first(), q));
        }
    } else {
        assert(p[0] == e);
        assert(p.drop_first() =~= Seq::<(Seq<char>, V)>::empty());
        assert(lookup(p.drop_first(), q) is None);
    }
}

/// When `lookup` finds nothing, no entry has the key.
pub proof fn lemma_lookup_none_all<V>(s: Seq<(Seq<char>, V)>, k: Seq<char>)
    requires
        lookup(s, k) is None,
    ensures
        forall|j: int| 0 <= j < s.len() ==> s[j].0 != k,
    decreases s.len(),
{
    if s.len() > 0 {
        lemma_lookup_none_all(s.drop_first(), k);
        assert forall|j: int| 0 <= j < s.len() implies s[j].0 != k by {
            if j > 0 {
                assert(s[j] == s.drop_first()[j - 1]);
            }
        }
    }
}

} // verus!
