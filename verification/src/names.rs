//! Lists of strings used as ordered sets: moderator names, removed names,
//! the turn order.  Specified over the element views.

use vstd::prelude::*;
use crate::text::str_eq;

verus! {

/// The element at index `i`, as a character sequence.
pub open spec fn str_at(s: Seq<String>, i: int) -> Seq<char> {
    s[i]@
}

/// Whether the list holds `k`.
pub open spec fn str_in(s: Seq<String>, k: Seq<char>) -> bool {
    exists|i: int| 0 <= i < s.len() && #[trigger] str_at(s, i) == k
}

/// All elements pairwise distinct.
pub open spec fn strs_unique(s: Seq<String>) -> bool {
    forall|i: int, j: int|
        0 <= i < j < s.len() ==> #[trigger] str_at(s, i) != #[trigger] str_at(s, j)
}

/// The whole list as a sequence of character sequences.
pub open spec fn strs_of(s: Seq<String>) -> Seq<Seq<char>> {
    Seq::new(s.len(), |i: int| s[i]@)
}

/// Removing one element of a duplicate-free list removes exactly its view.
pub proof fn lemma_strs_remove_idx(s: Seq<String>, i: int)
    requires
        strs_unique(s),
        0 <= i < s.len(),
    ensures
        strs_unique(s.remove(i)),
        forall|x: Seq<char>|
            #[trigger] str_in(s.remove(i), x) == (str_in(s, x) && x != str_at(s, i)),
{
    let s2 = s.remove(i);
    assert forall|a: int, b: int| 0 <= a < b < s2.len() implies #[trigger] str_at(s2, a)
        != #[trigger] str_at(s2, b) by {
        let oa = if a < i {
            a
        } else {
            a + 1
        };
        let ob = if b < i {
            b
        } else {
            b + 1
        };
        assert(str_at(s2, a) == str_at(s, oa));
        assert(str_at(s2, b) == str_at(s, ob));
    }
    assert forall|x: Seq<char>| #[trigger] str_in(s2, x) == (str_in(s, x) && x != str_at(
        s,
        i,
    )) by {
        if str_in(s2, x) {
            let w = choose|w: int| 0 <= w < s2.len() && #[trigger] str_at(s2, w) == x;
            let ow = if w < i {
                w
            } else {
                w + 1
            };
            assert(str_at(s, ow) == x);
            assert(ow != i);
            if ow < i {
                assert(str_at(s, ow) != str_at(s, i));
            } else {
                assert(str_at(s, i) != str_at(s, ow));
            }
        }
        if str_in(s, x) && x != str_at(s, i) {
            let w = choose|w: int| 0 <= w < s.len() && #[trigger] str_at(s, w) == x;
            if w < i {
                assert(str_at(s2, w) == x);
            } else {
                assert(str_at(s2, w - 1) == x);
            }
        }
    }
}

/// Appending extends membership by exactly the new element.
pub proof fn lemma_str_in_push(s: Seq<String>, e: String)
    ensures
        forall|x: Seq<char>| #[trigger] str_in(s.push(e), x) == (str_in(s, x) || x == e@),
{
    assert forall|x: Seq<char>| #[trigger] str_in(s.push(e), x) == (str_in(s, x) || x
        == e@) by {
        assert(str_at(s.push(e), s.len() as int) == e@);
        if str_in(s, x) {
            let w = choose|w: int| 0 <= w < s.len() && #[trigger] str_at(s, w) == x;
            assert(str_at(s.push(e), w) == x);
        }
        if str_in(s.push(e), x) {
            let w = choose|w: int| 0 <= w < s.push(e).len() && #[trigger] str_at(s.push(e), w)
                == x;
            if w < s.len() {
                assert(str_at(s, w) == x);
            }
        }
    }
}

/// Find the first occurrence of `k`.
pub fn find_str(v: &Vec<String>, k: &str) -> (r: Option<usize>)
    ensures
        match r {
            Some(i) => i < v@.len() && str_at(v@, i as int) == k@ && forall|j: int|
                0 <= j < i ==> #[trigger] str_at(v@, j) != k@,
            None => !str_in(v@, k@),
        },
{
    let n = v.len();
    let mut i: usize = 0;
    while i < n
        invariant
            i <= n,
            n == v@.len(),
            forall|j: int| 0 <= j < i ==> #[trigger] str_at(v@, j) != k@,
        decreases n - i,
    {
        if str_eq(v[i].as_str(), k) {
            return Some(i);
        }
        i = i + 1;
    }
    None
}

/// Whether the list holds `k`.
pub fn contains_str(v: &Vec<String>, k: &str) -> (r: bool)
    ensures
        r == str_in(v@, k@),
{
    match find_str(v, k) {
        Some(_) => true,
        None => false,
    }
}

/// Add `k` if absent, keeping elements distinct.
pub fn insert_str(v: &mut Vec<String>, k: &str)
    requires
        strs_unique(old(v)@),
    ensures
        strs_unique(final(v)@),
        str_in(final(v)@, k@),
        forall|x: Seq<char>| x != k@ ==> #[trigger] str_in(final(v)@, x) == str_in(old(v)@, x),
        forall|i: int| 0 <= i < old(v)@.len() ==> final(v)@[i] == old(v)@[i],
        final(v)@.len() == old(v)@.len() + (if str_in(old(v)@, k@) {
            0int
        } else {
            1int
        }),
{
    let ghost v0 = v@;
    match find_str(v, k) {
        Some(_) => {
        },
        None => {
            v.push(k.to_owned());
            proof {
                assert(str_at(v@, v0.len() as int) == k@);
                assert(forall|j: int| 0 <= j < v0.len() ==> str_at(v@, j) == #[trigger] str_at(
                    v0,
                    j,
                ));
                assert forall|a: int, b: int| 0 <= a < b < v@.len() implies #[trigger] str_at(
                    v@,
                    a,
                ) != #[trigger] str_at(v@, b) by {
                    if b == v0.len() {
                        assert(str_at(v@, a) == str_at(v0, a));
                        if str_at(v0, a) == k@ {
                            assert(str_in(v0, k@));
                        }
                    } else {
                        assert(str_at(v@, a) == str_at(v0, a));
                        assert(str_at(v@, b) == str_at(v0, b));
                    }
                }
                assert forall|x: Seq<char>| x != k@ implies #[trigger] str_in(v@, x) == str_in(
                    v0,
                    x,
                ) by {
                    if str_in(v0, x) {
                        let w = choose|w: int| 0 <= w < v0.len() && #[trigger] str_at(v0, w) == x;
                        assert(str_at(v@, w) == x);
                    }
                    if str_in(v@, x) {
                        let w = choose|w: int| 0 <= w < v@.len() && #[trigger] str_at(v@, w) == x;
                        assert(w < v0.len());
                        assert(str_at(v0, w) == x);
                    }
                }
            }
        },
    }
}

/// Remove `k` from a duplicate-free list.
pub fn remove_str(v: &mut Vec<String>, k: &str)
    requires
        strs_unique(old(v)@),
    ensures
        strs_unique(final(v)@),
        !str_in(final(v)@, k@),
        forall|x: Seq<char>| x != k@ ==> #[trigger] str_in(final(v)@, x) == str_in(old(v)@, x),
        final(v)@.len() == old(v)@.len() - (if str_in(old(v)@, k@) {
            1int
        } else {
            0int
        }),
{
    let ghost v0 = v@;
    match find_str(v, k) {
        Some(i) => {
            v.remove(i);
            proof {
                lemma_strs_remove_idx(v0, i as int);
            }
        },
        None => {
        },
    }
}

} // verus!
