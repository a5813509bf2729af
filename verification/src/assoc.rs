//! Association lists keyed by [`Key`]: the maps of schemas and of parsed values.
use vstd::prelude::*;

use crate::key::Key;

verus! {

/// The value of the first entry of `s` whose key has the text `k`.
pub open spec fn assoc_lookup<V>(s: Seq<(Key, V)>, k: Seq<char>) -> Option<V>
    decreases s.len(),
{
    if s.len() == 0 {
        None
    } else if s[0].0@ == k {
        Some(s[0].1)
    } else {
        assoc_lookup(s.drop_first(), k)
    }
}

/// No two entries of `s` have keys with the same text.
pub open spec fn keys_unique<V>(s: Seq<(Key, V)>) -> bool {
    forall|i: int, j: int| 0 <= i < j < s.len() ==> s[i].0@ != s[j].0@
}

/// Whether some entry of `s` has a key with the text `k`.
pub open spec fn has_key<V>(s: Seq<(Key, V)>, k: Seq<char>) -> bool {
    exists|i: int| 0 <= i < s.len() && s[i].0@ == k
}

/// Looking a key up finds the first entry with that key, and nothing where there is none.
pub proof fn lemma_lookup<V>(s: Seq<(Key, V)>, k: Seq<char>)
    ensures
        assoc_lookup(s, k) is Some <==> has_key(s, k),
        assoc_lookup(s, k) matches Some(v) ==> exists|i: int|
            0 <= i < s.len() && s[i].0@ == k && s[i].1 == v && forall|j: int|
                0 <= j < i ==> s[j].0@ != k,
    decreases s.len(),
{
    if s.len() > 0 {
        lemma_lookup(s.drop_first(), k);
        if s[0].0@ != k {
            if has_key(s, k) {
                let i = choose|i: int| 0 <= i < s.len() && s[i].0@ == k;
                assert(s.drop_first()[i - 1].0@ == k);
            }
            if let Some(v) = assoc_lookup(s, k) {
                let i = choose|i: int|
                    0 <= i < s.drop_first().len() && s.drop_first()[i].0@ == k && s.drop_first()[i].1
                        == v && forall|j: int| 0 <= j < i ==> s.drop_first()[j].0@ != k;
                assert(s[i + 1].0@ == k);
                assert forall|j: int| 0 <= j < i + 1 implies s[j].0@ != k by {
                    if j > 0 {
                        assert(s[j] == s.drop_first()[j - 1]);
                    }
                }
            }
            if has_key(s.drop_first(), k) {
                let i = choose|i: int| 0 <= i < s.drop_first().len() && s.drop_first()[i].0@ == k;
                assert(s[i + 1].0@ == k);
            }
        }
    }
}

/// With unique keys, an entry's key looks up that entry's value.
pub proof fn lemma_lookup_index<V>(s: Seq<(Key, V)>, i: int)
    requires
        keys_unique(s),
        0 <= i < s.len(),
    ensures
        assoc_lookup(s, s[i].0@) == Some(s[i].1),
{
    lemma_lookup(s, s[i].0@);
    assert(has_key(s, s[i].0@));
    let v = assoc_lookup(s, s[i].0@).unwrap();
    let j = choose|j: int|
        0 <= j < s.len() && s[j].0@ == s[i].0@ && s[j].1 == v && forall|m: int|
            0 <= m < j ==> s[m].0@ != s[i].0@;
    if j != i {
        if j < i {
            assert(s[j].0@ != s[i].0@);
        } else {
            assert(s[i].0@ != s[j].0@);
        }
    }
}

/// Replacing the value of entry `i` changes what its key looks up, and nothing else.
pub proof fn lemma_lookup_update<V>(s: Seq<(Key, V)>, i: int, key: Key, v: V, k: Seq<char>)
    requires
        keys_unique(s),
        0 <= i < s.len(),
        key@ == s[i].0@,
    ensures
        keys_unique(s.update(i, (key, v))),
        assoc_lookup(s.update(i, (key, v)), k) == if k == key@ {
            Some(v)
        } else {
            assoc_lookup(s, k)
        },
{
    let t = s.update(i, (key, v));
    assert forall|a: int, b: int| 0 <= a < b < t.len() implies t[a].0@ != t[b].0@ by {
        assert(s[a].0@ != s[b].0@);
    }
    if k == key@ {
        lemma_lookup_index(t, i);
    } else {
        lemma_lookup(s, k);
        lemma_lookup(t, k);
        if let Some(w) = assoc_lookup(s, k) {
            let j = choose|j: int|
                0 <= j < s.len() && s[j].0@ == k && s[j].1 == w && forall|m: int|
                    0 <= m < j ==> s[m].0@ != k;
            assert(t[j] == s[j]);
            lemma_lookup_index(t, j);
        }
        if has_key(t, k) {
            let j = choose|j: int| 0 <= j < t.len() && t[j].0@ == k;
            assert(s[j].0@ == k);
        }
    }
}

/// Appending an entry with a new key makes that key look up its value, and changes nothing else.
pub proof fn lemma_lookup_push<V>(s: Seq<(Key, V)>, key: Key, v: V, k: Seq<char>)
    requires
        keys_unique(s),
        !has_key(s, key@),
    ensures
        keys_unique(s.push((key, v))),
        assoc_lookup(s.push((key, v)), k) == if k == key@ {
            Some(v)
        } else {
            assoc_lookup(s, k)
        },
{
    let t = s.push((key, v));
    assert forall|a: int, b: int| 0 <= a < b < t.len() implies t[a].0@ != t[b].0@ by {
        if b == s.len() {
            assert(t[a] == s[a]);
        } else {
            assert(s[a].0@ != s[b].0@);
        }
    }
    if k == key@ {
        lemma_lookup_index(t, s.len() as int);
    } else {
        lemma_lookup(s, k);
        lemma_lookup(t, k);
        if let Some(w) = assoc_lookup(s, k) {
            let j = choose|j: int|
                0 <= j < s.len() && s[j].0@ == k && s[j].1 == w && forall|m: int|
                    0 <= m < j ==> s[m].0@ != k;
            assert(t[j] == s[j]);
            lemma_lookup_index(t, j);
        }
        if has_key(t, k) {
            let j = choose|j: int| 0 <= j < t.len() && t[j].0@ == k;
            assert(j < s.len());
            assert(s[j].0@ == k);
        }
    }
}

/// The index of the entry of `v` whose key has the text of `k`, if there is one.
pub fn find_key<V>(v: &Vec<(Key, V)>, k: &Key) -> (r: Option<usize>)
    ensures
        r matches Some(i) ==> i < v@.len() && v@[i as int].0@ == k@ && forall|j: int|
            0 <= j < i ==> v@[j].0@ != k@,
        r is None ==> !has_key(v@, k@),
{
    let mut i: usize = 0;
    while i < v.len()
        invariant
            i <= v@.len(),
            forall|j: int| 0 <= j < i ==> v@[j].0@ != k@,
        decreases v@.len() - i,
    {
        if v[i].0.same(k) {
            return Some(i);
        }
        i = i + 1;
    }
    None
}

} // verus!

verus! {

/// Sets the value of `key` in `v`: replaces the value of the entry with that key, or appends an
/// entry where there is none.
pub fn assoc_insert<V>(v: &mut Vec<(Key, V)>, key: Key, value: V)
    requires
        keys_unique(old(v)@),
    ensures
        keys_unique(final(v)@),
        forall|k: Seq<char>|
            #![trigger assoc_lookup(final(v)@, k)]
            assoc_lookup(final(v)@, k) == if k == key@ {
                Some(value)
            } else {
                assoc_lookup(old(v)@, k)
            },
{
    let ghost key_view = key@;
    match find_key(v, &key) {
        Some(i) => {
            let ghost s = v@;
            let ghost entry = (key, value);
            proof {
                assert forall|k: Seq<char>| #[trigger]
                    assoc_lookup(s.update(i as int, entry), k) == if k == key_view {
                        Some(value)
                    } else {
                        assoc_lookup(s, k)
                    } by {
                    lemma_lookup_update(s, i as int, entry.0, entry.1, k);
                }
                lemma_lookup_update(s, i as int, entry.0, entry.1, key_view);
            }
            v.set(i, (key, value));
            assert(v@ == s.update(i as int, entry));
        },
        None => {
            let ghost s = v@;
            let ghost entry = (key, value);
            proof {
                assert forall|k: Seq<char>| #[trigger]
                    assoc_lookup(s.push(entry), k) == if k == key_view {
                        Some(value)
                    } else {
                        assoc_lookup(s, k)
                    } by {
                    lemma_lookup_push(s, entry.0, entry.1, k);
                }
                lemma_lookup_push(s, entry.0, entry.1, key_view);
            }
            v.push((key, value));
        },
    }
}

} // verus!
