//! Ordered lists of peers used as sets, and a small association list used as
//! the payload cache. The order of a list is kept so that every choice the
//! node makes ("the first active peer", "the oldest passive peer") is
//! deterministic and can be stated exactly.
use vstd::prelude::*;
use crate::NodeId;
use crate::message::MessageId;

verus! {

/// The index of the first occurrence of `x` in `s` (meaningful when `s.contains(x)`).
pub open spec fn first_index<T>(s: Seq<T>, x: T) -> int {
    choose|i: int| 0 <= i < s.len() && s[i] == x && forall|j: int| 0 <= j < i ==> s[j] != x
}

/// `s` with the first occurrence of `x` removed (unchanged when `x` does not occur).
pub open spec fn without<T>(s: Seq<T>, x: T) -> Seq<T> {
    if s.contains(x) {
        s.remove(first_index(s, x))
    } else {
        s
    }
}

/// `s` with `x` appended unless it is already there.
pub open spec fn with<T>(s: Seq<T>, x: T) -> Seq<T> {
    if s.contains(x) {
        s
    } else {
        s.push(x)
    }
}

/// A message is known by the node it started at and that node's sequence number.
pub type BroadcastId<Id> = (Id, MessageId);

/// Whether the association list `c` has an entry under key `k`.
pub open spec fn has_key<K, V>(c: Seq<(K, V)>, k: K) -> bool {
    exists|i: int| 0 <= i < c.len() && c[i].0 == k
}

/// The index of the first entry under key `k`.
pub open spec fn key_index<K, V>(c: Seq<(K, V)>, k: K) -> int {
    choose|i: int|
        0 <= i < c.len() && c[i].0 == k && forall|j: int| 0 <= j < i ==> c[j].0 != k
}

/// The value stored under `k`, if any.
pub open spec fn lookup<K, V>(c: Seq<(K, V)>, k: K) -> Option<V> {
    if has_key(c, k) {
        Some(c[key_index(c, k)].1)
    } else {
        None
    }
}

/// `c` with the value under `k` replaced by `v`, or `(k, v)` appended when `k` is new.
pub open spec fn put<K, V>(c: Seq<(K, V)>, k: K, v: V) -> Seq<(K, V)> {
    if has_key(c, k) {
        c.update(key_index(c, k), (k, v))
    } else {
        c.push((k, v))
    }
}

/// No key occurs twice in `c`.
pub open spec fn unique_keys<K, V>(c: Seq<(K, V)>) -> bool {
    forall|i: int, j: int| 0 <= i < c.len() && 0 <= j < c.len() && i != j ==> c[i].0 != c[j].0
}

/// Equality of two peer ids, which for a lawful `Eq` is identity.
pub fn same_id<Id: NodeId>(a: &Id, b: &Id) -> (r: bool)
    requires
        vstd::laws_eq::obeys_concrete_eq::<Id>(),
    ensures
        r == (*a == *b),
{
    proof {
        reveal(vstd::laws_eq::obeys_concrete_eq);
    }
    *a == *b
}

/// Equality of two broadcast ids.
pub fn same_broadcast<Id: NodeId>(a: &BroadcastId<Id>, b: &BroadcastId<Id>) -> (r: bool)
    requires
        vstd::laws_eq::obeys_concrete_eq::<Id>(),
    ensures
        r == (*a == *b),
{
    same_id(&a.0, &b.0) && a.1 == b.1
}

/// Where `x` first occurs in `v`, if it does.
pub fn find_id<Id: NodeId>(v: &Vec<Id>, x: Id) -> (r: Option<usize>)
    requires
        vstd::laws_eq::obeys_concrete_eq::<Id>(),
    ensures
        match r {
            Some(i) => v@.contains(x) && i < v@.len() && v@[i as int] == x && i == first_index(v@, x),
            None => !v@.contains(x),
        },
{
    let mut i: usize = 0;
    while i < v.len()
        invariant
            vstd::laws_eq::obeys_concrete_eq::<Id>(),
            i <= v.len(),
            forall|j: int| 0 <= j < i ==> v@[j] != x,
        decreases v.len() - i,
    {
        if same_id(&v[i], &x) {
            assert(v@.contains(x));
            let ghost k = first_index(v@, x);
            assert(0 <= k < v.len() && v@[k] == x && forall|j: int| 0 <= j < k ==> v@[j] != x);
            assert(k == i) by {
                if k < i {
                } else if k > i {
                }
            }
            return Some(i);
        }
        i = i + 1;
    }
    None
}

/// Whether `x` occurs in `v`.
pub fn contains_id<Id: NodeId>(v: &Vec<Id>, x: Id) -> (r: bool)
    requires
        vstd::laws_eq::obeys_concrete_eq::<Id>(),
    ensures
        r == v@.contains(x),
{
    find_id(v, x).is_some()
}

/// Removes the first occurrence of `x` from `v`.
pub fn remove_id<Id: NodeId>(v: &mut Vec<Id>, x: Id)
    requires
        vstd::laws_eq::obeys_concrete_eq::<Id>(),
    ensures
        final(v)@ == without(old(v)@, x),
{
    match find_id(v, x) {
        Some(i) => {
            v.remove(i);
        },
        None => {},
    }
}

/// Appends `x` to `v` unless it is already there.
pub fn insert_id<Id: NodeId>(v: &mut Vec<Id>, x: Id)
    requires
        vstd::laws_eq::obeys_concrete_eq::<Id>(),
    ensures
        final(v)@ == with(old(v)@, x),
{
    if !contains_id(v, x) {
        v.push(x);
    }
}

/// Where the entry under `k` first occurs in `c`, if there is one.
pub fn find_key<Id: NodeId, V>(c: &Vec<(BroadcastId<Id>, V)>, k: &BroadcastId<Id>) -> (r: Option<usize>)
    requires
        vstd::laws_eq::obeys_concrete_eq::<Id>(),
    ensures
        match r {
            Some(i) => has_key(c@, *k) && i < c@.len() && c@[i as int].0 == *k && i == key_index(c@, *k),
            None => !has_key(c@, *k),
        },
{
    let mut i: usize = 0;
    while i < c.len()
        invariant
            vstd::laws_eq::obeys_concrete_eq::<Id>(),
            i <= c.len(),
            forall|j: int| 0 <= j < i ==> c@[j].0 != *k,
        decreases c.len() - i,
    {
        if same_broadcast(&c[i].0, k) {
            assert(has_key(c@, *k));
            let ghost m = key_index(c@, *k);
            assert(0 <= m < c.len() && c@[m].0 == *k && forall|j: int| 0 <= j < m ==> c@[j].0 != *k);
            assert(m == i) by {
                if m < i {
                } else if m > i {
                }
            }
            return Some(i);
        }
        i = i + 1;
    }
    None
}

/// Whether `s` holds the broadcast id `k`.
pub fn contains_broadcast<Id: NodeId>(s: &Vec<BroadcastId<Id>>, k: &BroadcastId<Id>) -> (r: bool)
    requires
        vstd::laws_eq::obeys_concrete_eq::<Id>(),
    ensures
        r == s@.contains(*k),
{
    let mut i: usize = 0;
    while i < s.len()
        invariant
            vstd::laws_eq::obeys_concrete_eq::<Id>(),
            i <= s.len(),
            forall|j: int| 0 <= j < i ==> s@[j] != *k,
        decreases s.len() - i,
    {
        if same_broadcast(&s[i], k) {
            return true;
        }
        i = i + 1;
    }
    false
}

/// Stores `v` under `k`, replacing an earlier value or appending a new entry.
pub fn put_entry<Id: NodeId, V>(c: &mut Vec<(BroadcastId<Id>, V)>, k: BroadcastId<Id>, v: V)
    requires
        vstd::laws_eq::obeys_concrete_eq::<Id>(),
    ensures
        final(c)@ == put(old(c)@, k, v),
{
    match find_key(c, &k) {
        Some(i) => {
            c.set(i, (k, v));
        },
        None => {
            c.push((k, v));
        },
    }
}

/// Appending a missing element keeps a list duplicate-free.
pub proof fn lemma_with<T>(s: Seq<T>, x: T)
    requires
        s.no_duplicates(),
    ensures
        with(s, x).no_duplicates(),
        forall|y: T| #[trigger] with(s, x).contains(y) <==> (s.contains(y) || y == x),
{
    if !s.contains(x) {
        let p = s.push(x);
        assert forall|y: T| #[trigger] p.contains(y) <==> (s.contains(y) || y == x) by {
            if p.contains(y) {
                let i = choose|i: int| 0 <= i < p.len() && p[i] == y;
                if i < s.len() {
                    assert(s[i] == y);
                }
            }
            if s.contains(y) {
                let i = choose|i: int| 0 <= i < s.len() && s[i] == y;
                assert(p[i] == y);
            }
            if y == x {
                assert(p[s.len() as int] == y);
            }
        }
        assert forall|i: int, j: int| 0 <= i < p.len() && 0 <= j < p.len() && i != j implies p[i] != p[j] by {
            if i < s.len() && j < s.len() {
            } else if i < s.len() {
                assert(s.contains(p[i]));
            } else if j < s.len() {
                assert(s.contains(p[j]));
            }
        }
    }
}

/// Storing under a key: the key is then present with the new value, and the
/// other keys are unchanged.
pub proof fn lemma_put<K, V>(c: Seq<(K, V)>, k: K, v: V)
    requires
        unique_keys(c),
    ensures
        unique_keys(put(c, k, v)),
        lookup(put(c, k, v), k) == Some(v),
        forall|j: K| #[trigger] has_key(put(c, k, v), j) <==> (has_key(c, j) || j == k),
        !has_key(c, k) ==> put(c, k, v) == c.push((k, v)),
{
    let t = put(c, k, v);
    if has_key(c, k) {
        let i = key_index(c, k);
        assert(0 <= i < c.len() && c[i].0 == k);
        assert forall|j: K| #[trigger] has_key(t, j) <==> (has_key(c, j) || j == k) by {
            if has_key(c, j) {
                let m = choose|m: int| 0 <= m < c.len() && c[m].0 == j;
                assert(t[m].0 == j);
            }
            if j == k {
                assert(t[i].0 == j);
            }
            if has_key(t, j) {
                let m = choose|m: int| 0 <= m < t.len() && t[m].0 == j;
                assert(c[m].0 == j || m == i);
            }
        }
        assert(has_key(t, k));
        let i2 = key_index(t, k);
        assert(i2 == i) by {
            if i2 < i {
                assert(t[i2].0 == c[i2].0);
            } else if i2 > i {
                assert(t[i].0 == k);
            }
        }
    } else {
        assert forall|j: K| #[trigger] has_key(t, j) <==> (has_key(c, j) || j == k) by {
            if has_key(c, j) {
                let m = choose|m: int| 0 <= m < c.len() && c[m].0 == j;
                assert(t[m].0 == j);
            }
            if j == k {
                assert(t[c.len() as int].0 == j);
            }
            if has_key(t, j) {
                let m = choose|m: int| 0 <= m < t.len() && t[m].0 == j;
                if m < c.len() {
                    assert(c[m].0 == j);
                }
            }
        }
        assert(has_key(t, k)) by {
            assert(t[c.len() as int].0 == k);
        }
        let i2 = key_index(t, k);
        assert(i2 == c.len()) by {
            if i2 < c.len() {
                assert(c[i2].0 == k);
            }
        }
    }
}

/// Filtering a duplicate-free list leaves it duplicate-free.
pub proof fn lemma_filter_no_dups<T>(s: Seq<T>, f: spec_fn(T) -> bool)
    requires
        s.no_duplicates(),
    ensures
        s.filter(f).no_duplicates(),
    decreases s.len(),
{
    reveal(Seq::filter);
    if s.len() > 0 {
        let r = s.drop_last();
        assert(r.no_duplicates());
        lemma_filter_no_dups(r, f);
        if f(s.last()) {
            assert(!r.contains(s.last())) by {
                if r.contains(s.last()) {
                    let i = choose|i: int| 0 <= i < r.len() && r[i] == s.last();
                    assert(s[i] == s[s.len() - 1]);
                }
            }
            assert(!r.filter(f).contains(s.last())) by {
                if r.filter(f).contains(s.last()) {
                    r.lemma_filter_contains_rev(f, s.last());
                }
            }
            lemma_with(r.filter(f), s.last());
        }
    }
}

} // verus!
