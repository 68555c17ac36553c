//! Name-keyed association tables and name lists.
//!
//! The room state keeps its maps (players, observers, hands, tokens,
//! generations, submissions, votes) as vectors of `(String, V)` pairs with
//! pairwise-distinct keys, and its sets (moderators, removed names) as
//! vectors of distinct strings.  This module gives those representations
//! their specification vocabulary and the verified operations on them.

use vstd::prelude::*;
use crate::text::str_eq;

verus! {

/// The key of entry `i`, as a character sequence.
pub open spec fn key_at<V>(m: Seq<(String, V)>, i: int) -> Seq<char> {
    m[i].0@
}

/// Whether some entry has key `k`.
pub open spec fn has_key<V>(m: Seq<(String, V)>, k: Seq<char>) -> bool {
    exists|i: int| 0 <= i < m.len() && #[trigger] key_at(m, i) == k
}

/// All keys pairwise distinct.
pub open spec fn unique_keys<V>(m: Seq<(String, V)>) -> bool {
    forall|i: int, j: int|
        0 <= i < j < m.len() ==> #[trigger] key_at(m, i) != #[trigger] key_at(m, j)
}

/// The index of the entry with key `k`.
pub open spec fn index_of_key<V>(m: Seq<(String, V)>, k: Seq<char>) -> int {
    choose|i: int| 0 <= i < m.len() && #[trigger] key_at(m, i) == k
}

/// The value stored under key `k`.
pub open spec fn value_of<V>(m: Seq<(String, V)>, k: Seq<char>) -> V
    recommends
        has_key(m, k),
{
    m[index_of_key(m, k)].1
}

/// With distinct keys, an entry's index is the index its key resolves to.
pub proof fn lemma_index_of_key<V>(m: Seq<(String, V)>, k: Seq<char>, i: int)
    requires
        unique_keys(m),
        0 <= i < m.len(),
        key_at(m, i) == k,
    ensures
        index_of_key(m, k) == i,
        value_of(m, k) == m[i].1,
{
    assert(has_key(m, k));
    let j = index_of_key(m, k);
    if i < j {
        assert(key_at(m, i) != key_at(m, j));
    } else if j < i {
        assert(key_at(m, j) != key_at(m, i));
    }
}

/// The index a present key resolves to is in range and carries that key.
pub proof fn lemma_key_index_valid<V>(m: Seq<(String, V)>, k: Seq<char>)
    requires
        has_key(m, k),
    ensures
        0 <= index_of_key(m, k) < m.len(),
        key_at(m, index_of_key(m, k)) == k,
{
}

/// A table whose keys all occur in another table is no longer than it.
pub proof fn lemma_key_subset_len<A, B>(a: Seq<(String, A)>, b: Seq<(String, B)>)
    requires
        unique_keys(a),
        unique_keys(b),
        forall|x: Seq<char>| #[trigger] has_key(a, x) ==> has_key(b, x),
    ensures
        a.len() <= b.len(),
    decreases a.len(),
{
    if a.len() > 0 {
        let k = key_at(a, 0);
        assert(has_key(a, k));
        lemma_key_index_valid(b, k);
        let j = index_of_key(b, k);
        let a2 = a.drop_first();
        let b2 = b.remove(j);
        assert forall|i: int, i2: int| 0 <= i < i2 < a2.len() implies #[trigger] key_at(a2, i)
            != #[trigger] key_at(a2, i2) by {
            assert(key_at(a, i + 1) != key_at(a, i2 + 1));
        }
        assert forall|i: int, i2: int| 0 <= i < i2 < b2.len() implies #[trigger] key_at(b2, i)
            != #[trigger] key_at(b2, i2) by {
            let oi = if i < j {
                i
            } else {
                i + 1
            };
            let oi2 = if i2 < j {
                i2
            } else {
                i2 + 1
            };
            assert(key_at(b2, i) == key_at(b, oi));
            assert(key_at(b2, i2) == key_at(b, oi2));
        }
        assert forall|x: Seq<char>| #[trigger] has_key(a2, x) implies has_key(b2, x) by {
            let i = choose|i: int| 0 <= i < a2.len() && #[trigger] key_at(a2, i) == x;
            assert(key_at(a, i + 1) == x);
            assert(has_key(a, x));
            assert(x != k);
            lemma_key_index_valid(b, x);
            let j2 = index_of_key(b, x);
            assert(j2 != j);
            if j2 < j {
                assert(key_at(b2, j2) == x);
            } else {
                assert(key_at(b2, j2 - 1) == key_at(b, j2));
            }
        }
        lemma_key_subset_len(a2, b2);
    }
}

/// Removing one entry of a duplicate-free table removes exactly its key.
pub proof fn lemma_remove_entry_seq<V>(t: Seq<(String, V)>, j: int)
    requires
        unique_keys(t),
        0 <= j < t.len(),
    ensures
        unique_keys(t.remove(j)),
        forall|x: Seq<char>|
            #[trigger] has_key(t.remove(j), x) == (has_key(t, x) && x != key_at(t, j)),
{
    let t2 = t.remove(j);
    assert forall|a: int, b: int| 0 <= a < b < t2.len() implies #[trigger] key_at(t2, a)
        != #[trigger] key_at(t2, b) by {
        let oa = if a < j {
            a
        } else {
            a + 1
        };
        let ob = if b < j {
            b
        } else {
            b + 1
        };
        assert(key_at(t2, a) == key_at(t, oa));
        assert(key_at(t2, b) == key_at(t, ob));
    }
    assert forall|x: Seq<char>| #[trigger] has_key(t2, x) == (has_key(t, x) && x != key_at(
        t,
        j,
    )) by {
        if has_key(t2, x) {
            let w = choose|w: int| 0 <= w < t2.len() && #[trigger] key_at(t2, w) == x;
            let ow = if w < j {
                w
            } else {
                w + 1
            };
            assert(key_at(t, ow) == x);
            if ow < j {
                assert(key_at(t, ow) != key_at(t, j));
            } else {
                assert(key_at(t, j) != key_at(t, ow));
            }
        }
        if has_key(t, x) && x != key_at(t, j) {
            let w = choose|w: int| 0 <= w < t.len() && #[trigger] key_at(t, w) == x;
            if w < j {
                assert(key_at(t2, w) == x);
            } else {
                assert(key_at(t2, w - 1) == x);
            }
        }
    }
}

/// A duplicate-free list naming exactly a table's keys has its length.
pub proof fn lemma_list_table_same_len<V>(l: Seq<String>, t: Seq<(String, V)>)
    requires
        crate::names::strs_unique(l),
        unique_keys(t),
        forall|x: Seq<char>| #[trigger] crate::names::str_in(l, x) == has_key(t, x),
    ensures
        l.len() == t.len(),
    decreases l.len(),
{
    if l.len() == 0 {
        if t.len() > 0 {
            assert(has_key(t, key_at(t, 0)));
            assert(!crate::names::str_in(l, key_at(t, 0)));
        }
    } else {
        let k = crate::names::str_at(l, 0);
        assert(crate::names::str_in(l, k));
        lemma_key_index_valid(t, k);
        let j = index_of_key(t, k);
        crate::names::lemma_strs_remove_idx(l, 0);
        lemma_remove_entry_seq(t, j);
        let l2 = l.remove(0);
        let t2 = t.remove(j);
        assert forall|x: Seq<char>| #[trigger] crate::names::str_in(l2, x) == has_key(
            t2,
            x,
        ) by {
            assert(crate::names::str_in(l2, x) == (crate::names::str_in(l, x) && x != k));
        }
        lemma_list_table_same_len(l2, t2);
    }
}

/// Taking one more entry extends the key set by exactly that entry's key.
pub proof fn lemma_has_key_take_succ<V>(m: Seq<(String, V)>, i: int)
    requires
        0 <= i < m.len(),
    ensures
        forall|x: Seq<char>|
            #[trigger] has_key(m.take(i + 1), x) == (has_key(m.take(i), x) || key_at(m, i) == x),
{
    assert forall|x: Seq<char>| #[trigger] has_key(m.take(i + 1), x) == (has_key(m.take(i), x)
        || key_at(m, i) == x) by {
        if has_key(m.take(i + 1), x) {
            let w = choose|w: int|
                0 <= w < m.take(i + 1).len() && #[trigger] key_at(m.take(i + 1), w) == x;
            if w < i {
                assert(m.take(i)[w] == m.take(i + 1)[w]);
                assert(key_at(m.take(i), w) == x);
            } else {
                assert(m.take(i + 1)[w] == m[i]);
            }
        }
        if has_key(m.take(i), x) {
            let w = choose|w: int| 0 <= w < m.take(i).len() && #[trigger] key_at(m.take(i), w) == x;
            assert(m.take(i + 1)[w] == m.take(i)[w]);
            assert(key_at(m.take(i + 1), w) == x);
        }
        if key_at(m, i) == x {
            assert(m.take(i + 1)[i] == m[i]);
            assert(key_at(m.take(i + 1), i) == x);
        }
    }
}

/// A table whose keys, but for one, occur in another table is at most
/// one entry longer than it.
pub proof fn lemma_key_subset_len_except<A, B>(
    a: Seq<(String, A)>,
    b: Seq<(String, B)>,
    e: Seq<char>,
)
    requires
        unique_keys(a),
        unique_keys(b),
        forall|x: Seq<char>| #[trigger] has_key(a, x) && x != e ==> has_key(b, x),
    ensures
        a.len() <= b.len() + 1,
{
    if has_key(a, e) {
        lemma_key_index_valid(a, e);
        let i = index_of_key(a, e);
        lemma_remove_entry_seq(a, i);
        assert forall|x: Seq<char>| #[trigger] has_key(a.remove(i), x) implies has_key(b, x) by {
            assert(has_key(a, x) && x != e);
        }
        lemma_key_subset_len(a.remove(i), b);
    } else {
        assert forall|x: Seq<char>| #[trigger] has_key(a, x) implies has_key(b, x) by {
            assert(x != e);
        }
        lemma_key_subset_len(a, b);
    }
}

/// Two tables with pointwise equal keys have the same key set.
pub proof fn lemma_same_keys<A, B>(a: Seq<(String, A)>, b: Seq<(String, B)>)
    requires
        a.len() == b.len(),
        forall|i: int| 0 <= i < a.len() ==> #[trigger] key_at(a, i) == key_at(b, i),
    ensures
        forall|x: Seq<char>| #[trigger] has_key(a, x) == has_key(b, x),
        unique_keys(a) == unique_keys(b),
{
    assert forall|x: Seq<char>| #[trigger] has_key(a, x) == has_key(b, x) by {
        if has_key(a, x) {
            let w = choose|w: int| 0 <= w < a.len() && #[trigger] key_at(a, w) == x;
            assert(key_at(b, w) == x);
        }
        if has_key(b, x) {
            let w = choose|w: int| 0 <= w < b.len() && #[trigger] key_at(b, w) == x;
            assert(key_at(a, w) == x);
        }
    }
    if unique_keys(a) {
        assert forall|i: int, j: int| 0 <= i < j < b.len() implies #[trigger] key_at(b, i)
            != #[trigger] key_at(b, j) by {
            assert(key_at(a, i) != key_at(a, j));
        }
    }
    if unique_keys(b) {
        assert forall|i: int, j: int| 0 <= i < j < a.len() implies #[trigger] key_at(a, i)
            != #[trigger] key_at(a, j) by {
            assert(key_at(b, i) != key_at(b, j));
        }
    }
}

/// Copy a table whose values are plain copyable data.
pub fn clone_table<V: Copy>(m: &Vec<(String, V)>) -> (r: Vec<(String, V)>)
    ensures
        r@ == m@,
{
    let n = m.len();
    let mut r: Vec<(String, V)> = Vec::new();
    let mut i: usize = 0;
    while i < n
        invariant
            i <= n,
            n == m@.len(),
            r@ =~= m@.subrange(0, i as int),
        decreases n - i,
    {
        r.push((m[i].0.clone(), m[i].1));
        proof {
            assert(r@ =~= m@.subrange(0, i + 1));
        }
        i = i + 1;
    }
    proof {
        assert(m@.subrange(0, n as int) =~= m@);
    }
    r
}

/// Copy a table of strings.
pub fn clone_str_table(m: &Vec<(String, String)>) -> (r: Vec<(String, String)>)
    ensures
        r@ == m@,
{
    let n = m.len();
    let mut r: Vec<(String, String)> = Vec::new();
    let mut i: usize = 0;
    while i < n
        invariant
            i <= n,
            n == m@.len(),
            r@ =~= m@.subrange(0, i as int),
        decreases n - i,
    {
        r.push((m[i].0.clone(), m[i].1.clone()));
        proof {
            assert(r@ =~= m@.subrange(0, i + 1));
        }
        i = i + 1;
    }
    proof {
        assert(m@.subrange(0, n as int) =~= m@);
    }
    r
}

/// Copy a list of strings.
pub fn clone_str_list(m: &Vec<String>) -> (r: Vec<String>)
    ensures
        r@ == m@,
{
    let n = m.len();
    let mut r: Vec<String> = Vec::new();
    let mut i: usize = 0;
    while i < n
        invariant
            i <= n,
            n == m@.len(),
            r@ =~= m@.subrange(0, i as int),
        decreases n - i,
    {
        r.push(m[i].clone());
        proof {
            assert(r@ =~= m@.subrange(0, i + 1));
        }
        i = i + 1;
    }
    proof {
        assert(m@.subrange(0, n as int) =~= m@);
    }
    r
}

/// Find the index of the entry with key `k`.
pub fn find_entry<V>(m: &Vec<(String, V)>, k: &str) -> (r: Option<usize>)
    ensures
        match r {
            Some(i) => i < m@.len() && key_at(m@, i as int) == k@,
            None => !has_key(m@, k@),
        },
{
    let n = m.len();
    let mut i: usize = 0;
    while i < n
        invariant
            i <= n,
            n == m@.len(),
            forall|j: int| 0 <= j < i ==> #[trigger] key_at(m@, j) != k@,
        decreases n - i,
    {
        if str_eq(m[i].0.as_str(), k) {
            return Some(i);
        }
        i = i + 1;
    }
    None
}

/// Whether the table has an entry for `k`.
pub fn has_entry<V>(m: &Vec<(String, V)>, k: &str) -> (r: bool)
    ensures
        r == has_key(m@, k@),
{
    match find_entry(m, k) {
        Some(_) => true,
        None => false,
    }
}

/// Borrow the value stored under `k`.
pub fn read_entry<'a, V>(m: &'a Vec<(String, V)>, k: &str) -> (r: Option<&'a V>)
    requires
        unique_keys(m@),
    ensures
        match r {
            Some(v) => has_key(m@, k@) && *v == value_of(m@, k@),
            None => !has_key(m@, k@),
        },
{
    match find_entry(m, k) {
        Some(i) => {
            proof {
                lemma_index_of_key(m@, k@, i as int);
            }
            Some(&m[i].1)
        },
        None => None,
    }
}

/// Insert or replace the value under key `k`.
pub fn put_entry<V>(m: &mut Vec<(String, V)>, k: &str, v: V)
    requires
        unique_keys(old(m)@),
    ensures
        unique_keys(final(m)@),
        has_key(final(m)@, k@),
        value_of(final(m)@, k@) == v,
        forall|x: Seq<char>|
            x != k@ ==> #[trigger] has_key(final(m)@, x) == has_key(old(m)@, x),
        forall|x: Seq<char>|
            x != k@ && has_key(old(m)@, x) ==> #[trigger] value_of(final(m)@, x) == value_of(
                old(m)@,
                x,
            ),
        final(m)@.len() == old(m)@.len() + (if has_key(old(m)@, k@) {
            0int
        } else {
            1int
        }),
        has_key(old(m)@, k@) ==> forall|i: int|
            0 <= i < final(m)@.len() ==> #[trigger] key_at(final(m)@, i) == key_at(old(m)@, i),
        !has_key(old(m)@, k@) ==> forall|i: int|
            0 <= i < old(m)@.len() ==> #[trigger] key_at(final(m)@, i) == key_at(old(m)@, i),
        has_key(old(m)@, k@) ==> final(m)@ == old(m)@.update(
            index_of_key(old(m)@, k@),
            (old(m)@[index_of_key(old(m)@, k@)].0, v),
        ),
        !has_key(old(m)@, k@) ==> final(m)@.drop_last() == old(m)@ && final(m)@[old(
            m,
        )@.len() as int].1 == v,
{
    let ghost m0 = m@;
    match find_entry(m, k) {
        Some(i) => {
            let e = m.remove(i);
            m.insert(i, (e.0, v));
            proof {
                assert(m@ =~= m0.update(i as int, (m0[i as int].0, v)));
                assert(forall|j: int|
                    0 <= j < m@.len() ==> #[trigger] key_at(m@, j) == key_at(m0, j));
                assert(key_at(m@, i as int) == k@);
                assert(has_key(m@, k@));
                lemma_index_of_key(m@, k@, i as int);
                assert(m@[i as int].1 == v);
                assert(value_of(m@, k@) == v);
                assert forall|x: Seq<char>| x != k@ implies #[trigger] has_key(m@, x) == has_key(
                    m0,
                    x,
                ) by {
                    if has_key(m0, x) {
                        let w = choose|w: int| 0 <= w < m0.len() && #[trigger] key_at(m0, w) == x;
                        assert(key_at(m@, w) == x);
                    }
                    if has_key(m@, x) {
                        let w = choose|w: int| 0 <= w < m@.len() && #[trigger] key_at(m@, w) == x;
                        assert(key_at(m0, w) == x);
                    }
                }
                assert forall|x: Seq<char>| x != k@ && has_key(m0, x) implies #[trigger] value_of(
                    m@,
                    x,
                ) == value_of(m0, x) by {
                    lemma_key_index_valid(m0, x);
                    let w = index_of_key(m0, x);
                    assert(w != i);
                    assert(key_at(m@, w) == x);
                    lemma_index_of_key(m@, x, w);
                }
            }
        },
        None => {
            let entry = (k.to_owned(), v);
            m.push(entry);
            proof {
                assert(forall|j: int|
                    0 <= j < m0.len() ==> #[trigger] key_at(m@, j) == key_at(m0, j));
                assert(key_at(m@, m0.len() as int) == k@);
                assert forall|i: int, j: int| 0 <= i < j < m@.len() implies #[trigger] key_at(
                    m@,
                    i,
                ) != #[trigger] key_at(m@, j) by {
                    if j == m0.len() {
                        assert(key_at(m@, i) == key_at(m0, i));
                        assert(!has_key(m0, k@));
                        if key_at(m0, i) == k@ {
                            assert(has_key(m0, k@));
                        }
                    }
                }
                lemma_index_of_key(m@, k@, m0.len() as int);
                assert forall|x: Seq<char>| x != k@ implies #[trigger] has_key(m@, x) == has_key(
                    m0,
                    x,
                ) by {
                    if has_key(m0, x) {
                        let w = choose|w: int| 0 <= w < m0.len() && #[trigger] key_at(m0, w) == x;
                        assert(key_at(m@, w) == x);
                    }
                    if has_key(m@, x) {
                        let w = choose|w: int| 0 <= w < m@.len() && #[trigger] key_at(m@, w) == x;
                        assert(w < m0.len());
                        assert(key_at(m0, w) == x);
                    }
                }
                assert forall|x: Seq<char>| x != k@ && has_key(m0, x) implies #[trigger] value_of(
                    m@,
                    x,
                ) == value_of(m0, x) by {
                    lemma_key_index_valid(m0, x);
                    let w = index_of_key(m0, x);
                    assert(key_at(m@, w) == x);
                    lemma_index_of_key(m@, x, w);
                }
            }
        },
    }
}

/// Remove the entry under key `k`, returning its value.
pub fn remove_entry<V>(m: &mut Vec<(String, V)>, k: &str) -> (r: Option<V>)
    requires
        unique_keys(old(m)@),
    ensures
        unique_keys(final(m)@),
        !has_key(final(m)@, k@),
        forall|x: Seq<char>|
            x != k@ ==> #[trigger] has_key(final(m)@, x) == has_key(old(m)@, x),
        forall|x: Seq<char>|
            x != k@ && has_key(old(m)@, x) ==> #[trigger] value_of(final(m)@, x) == value_of(
                old(m)@,
                x,
            ),
        match r {
            Some(v) => has_key(old(m)@, k@) && v == value_of(old(m)@, k@) && final(m)@.len() + 1
                == old(m)@.len(),
            None => !has_key(old(m)@, k@) && final(m)@ == old(m)@,
        },
        has_key(old(m)@, k@) ==> final(m)@ == old(m)@.remove(index_of_key(old(m)@, k@)),
{
    let ghost m0 = m@;
    match find_entry(m, k) {
        Some(i) => {
            proof {
                lemma_index_of_key(m0, k@, i as int);
            }
            let e = m.remove(i);
            proof {
                assert forall|i2: int, j2: int| 0 <= i2 < j2 < m@.len() implies #[trigger] key_at(
                    m@,
                    i2,
                ) != #[trigger] key_at(m@, j2) by {
                    let oi = if i2 < i {
                        i2
                    } else {
                        i2 + 1
                    };
                    let oj = if j2 < i {
                        j2
                    } else {
                        j2 + 1
                    };
                    assert(key_at(m@, i2) == key_at(m0, oi));
                    assert(key_at(m@, j2) == key_at(m0, oj));
                }
                assert forall|x: Seq<char>| #[trigger] has_key(m@, x) implies x != k@ && has_key(
                    m0,
                    x,
                ) by {
                    let w = choose|w: int| 0 <= w < m@.len() && #[trigger] key_at(m@, w) == x;
                    let ow = if w < i {
                        w
                    } else {
                        w + 1
                    };
                    assert(key_at(m0, ow) == x);
                    if ow != i {
                        assert(key_at(m0, ow) != key_at(m0, i as int) || key_at(m0, i as int)
                            != key_at(m0, ow));
                    }
                }
                assert forall|x: Seq<char>| x != k@ && has_key(m0, x) implies has_key(m@, x) by {
                    let w = choose|w: int| 0 <= w < m0.len() && #[trigger] key_at(m0, w) == x;
                    if w < i {
                        assert(key_at(m@, w) == x);
                    } else {
                        assert(w > i);
                        assert(key_at(m@, w - 1) == x);
                    }
                }
                assert forall|x: Seq<char>| x != k@ && has_key(m0, x) implies #[trigger] value_of(
                    m@,
                    x,
                ) == value_of(m0, x) by {
                    lemma_key_index_valid(m0, x);
                    let w = index_of_key(m0, x);
                    if w < i {
                        assert(key_at(m@, w) == x);
                        lemma_index_of_key(m@, x, w);
                    } else {
                        assert(key_at(m@, w - 1) == x);
                        lemma_index_of_key(m@, x, w - 1);
                    }
                }
            }
            Some(e.1)
        },
        None => None,
    }
}

} // verus!
