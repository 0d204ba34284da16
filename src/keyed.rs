//! Vectors of keyed entries, looked up by the first entry with a given key.
use vstd::prelude::*;

verus! {

/// The index of the first entry of `s` whose key is `k`, or the length of
/// `s` when there is none.
pub open spec fn first_key<V>(s: Seq<(String, V)>, k: Seq<char>) -> int
    decreases s.len(),
{
    if s.len() == 0 {
        0
    } else if s[0].0@ == k {
        0
    } else {
        1 + first_key(s.drop_first(), k)
    }
}

/// `r` is the index of the first entry of `s` with key `k`, or the length
/// of `s` when there is none.
pub open spec fn is_first_key<V>(s: Seq<(String, V)>, k: Seq<char>, r: int) -> bool {
    &&& 0 <= r <= s.len()
    &&& r < s.len() ==> s[r].0@ == k
    &&& forall|j: int| 0 <= j < r ==> s[j].0@ != k
}

pub(crate) proof fn lemma_first_key<V>(s: Seq<(String, V)>, k: Seq<char>, r: int)
    requires
        is_first_key(s, k, r),
    ensures
        first_key(s, k) == r,
    decreases s.len(),
{
    if s.len() > 0 && s[0].0@ != k {
        assert(is_first_key(s.drop_first(), k, r - 1));
        lemma_first_key(s.drop_first(), k, r - 1);
    }
}

pub(crate) proof fn lemma_first_key_props<V>(s: Seq<(String, V)>, k: Seq<char>)
    ensures
        is_first_key(s, k, first_key(s, k)),
    decreases s.len(),
{
    if s.len() > 0 && s[0].0@ != k {
        lemma_first_key_props(s.drop_first(), k);
        assert forall|j: int| 0 < j < first_key(s, k) implies s[j].0@ != k by {
            assert(s[j] == s.drop_first()[j - 1]);
        }
    }
}

pub(crate) proof fn lemma_first_key_push<V>(s: Seq<(String, V)>, e: (String, V), k: Seq<char>)
    ensures
        first_key(s.push(e), k) == if first_key(s, k) < s.len() {
            first_key(s, k)
        } else if e.0@ == k {
            s.len() as int
        } else {
            s.len() + 1int
        },
{
    lemma_first_key_props(s, k);
    let t = s.push(e);
    if first_key(s, k) < s.len() {
        lemma_first_key(t, k, first_key(s, k));
    } else if e.0@ == k {
        lemma_first_key(t, k, s.len() as int);
    } else {
        lemma_first_key(t, k, s.len() + 1int);
    }
}

pub(crate) proof fn lemma_first_key_update<V>(s: Seq<(String, V)>, i: int, e: (String, V), k: Seq<char>)
    requires
        0 <= i < s.len(),
        s[i].0@ == e.0@,
    ensures
        first_key(s.update(i, e), k) == first_key(s, k),
{
    lemma_first_key_props(s, k);
    lemma_first_key(s.update(i, e), k, first_key(s, k));
}

pub(crate) fn find_key<V>(s: &Vec<(String, V)>, k: &String) -> (r: usize)
    ensures
        r == first_key(s@, k@),
{
    let mut i: usize = 0;
    while i < s.len() && !(s[i].0 == *k)
        invariant
            i <= s@.len(),
            forall|j: int| 0 <= j < i ==> s@[j].0@ != k@,
        decreases s@.len() - i,
    {
        i = i + 1;
    }
    proof {
        lemma_first_key(s@, k@, i as int);
    }
    i
}

/// No two entries of `s` have the same key.
pub open spec fn keys_unique<V>(s: Seq<(String, V)>) -> bool {
    forall|i: int, j: int| 0 <= i < j < s.len() ==> s[i].0@ != s[j].0@
}

/// An entry whose key is not yet there keeps the keys unique.
pub(crate) proof fn lemma_unique_push<V>(s: Seq<(String, V)>, e: (String, V))
    requires
        keys_unique(s),
        first_key(s, e.0@) == s.len(),
    ensures
        keys_unique(s.push(e)),
{
    lemma_first_key_props(s, e.0@);
}

/// An entry that replaces one with the same key keeps the keys unique.
pub(crate) proof fn lemma_unique_update<V>(s: Seq<(String, V)>, i: int, e: (String, V))
    requires
        keys_unique(s),
        0 <= i < s.len(),
        s[i].0@ == e.0@,
    ensures
        keys_unique(s.update(i, e)),
{
}

} // verus!
