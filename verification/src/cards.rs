//! Card accounting.  Cards are identified by their text; the draw deck,
//! the discard pile and every hand are bags of card identifiers, and the
//! room invariant says their union is exactly the base deck.

use vstd::prelude::*;
use vstd::multiset::Multiset;
use crate::names::{str_in, strs_of, strs_unique, str_at};

verus! {

broadcast use vstd::multiset::group_multiset_axioms, vstd::seq_lib::group_to_multiset_ensures;

/// The bag of card identifiers in one list of cards.
pub open spec fn card_bag(s: Seq<String>) -> Multiset<Seq<char>> {
    strs_of(s).to_multiset()
}

/// The bag of card identifiers across all hands of a hand table.
pub open spec fn hands_bag(h: Seq<(String, Vec<String>)>) -> Multiset<Seq<char>>
    decreases h.len(),
{
    if h.len() == 0 {
        Multiset::empty()
    } else {
        hands_bag(h.drop_last()).add(card_bag(h.last().1@))
    }
}

pub proof fn lemma_card_bag_push(s: Seq<String>, x: String)
    ensures
        card_bag(s.push(x)) == card_bag(s).insert(x@),
{
    assert(strs_of(s.push(x)) =~= strs_of(s).push(x@));
}

pub proof fn lemma_card_bag_drop_last(s: Seq<String>)
    requires
        s.len() > 0,
    ensures
        card_bag(s) == card_bag(s.drop_last()).insert(s.last()@),
{
    assert(strs_of(s) =~= strs_of(s.drop_last()).push(s.last()@));
}

pub proof fn lemma_card_bag_remove(s: Seq<String>, i: int)
    requires
        0 <= i < s.len(),
    ensures
        card_bag(s.remove(i)) == card_bag(s).remove(s[i]@),
{
    assert(strs_of(s.remove(i)) =~= strs_of(s).remove(i));
    assert(strs_of(s)[i] == s[i]@);
}

pub proof fn lemma_card_bag_concat(s: Seq<String>, t: Seq<String>)
    ensures
        card_bag(s + t) == card_bag(s).add(card_bag(t)),
{
    assert(strs_of(s + t) =~= strs_of(s) + strs_of(t));
    vstd::seq_lib::lemma_multiset_commutative(strs_of(s), strs_of(t));
}

/// An element of the list is in its bag.
pub proof fn lemma_card_bag_member(s: Seq<String>, i: int)
    requires
        0 <= i < s.len(),
    ensures
        card_bag(s).count(s[i]@) >= 1,
{
    assert(strs_of(s)[i] == s[i]@);
    assert(strs_of(s).contains(s[i]@));
}

/// Bag membership coincides with list membership.
pub proof fn lemma_card_bag_contains(s: Seq<String>, c: Seq<char>)
    ensures
        card_bag(s).count(c) > 0 <==> str_in(s, c),
{
    if card_bag(s).count(c) > 0 {
        assert(strs_of(s).contains(c));
        let i = choose|i: int| 0 <= i < strs_of(s).len() && strs_of(s)[i] == c;
        assert(str_at(s, i) == c);
    }
    if str_in(s, c) {
        let i = choose|i: int| 0 <= i < s.len() && #[trigger] str_at(s, i) == c;
        lemma_card_bag_member(s, i);
    }
}

/// A duplicate-free list's bag has no element twice.
pub proof fn lemma_unique_card_bag(s: Seq<String>, c: Seq<char>)
    requires
        strs_unique(s),
    ensures
        card_bag(s).count(c) <= 1,
    decreases s.len(),
{
    if s.len() > 0 {
        lemma_card_bag_drop_last(s);
        assert(strs_unique(s.drop_last())) by {
            assert(forall|i: int, j: int|
                0 <= i < j < s.len() - 1 ==> #[trigger] str_at(s.drop_last(), i)
                    == str_at(s, i) && #[trigger] str_at(s.drop_last(), j) == str_at(s, j));
        }
        lemma_unique_card_bag(s.drop_last(), c);
        if s.last()@ == c {
            lemma_card_bag_contains(s.drop_last(), c);
            if str_in(s.drop_last(), c) {
                let i = choose|i: int|
                    0 <= i < s.len() - 1 && #[trigger] str_at(s.drop_last(), i) == c;
                assert(str_at(s, i) == c);
                assert(str_at(s, s.len() - 1) == c);
            }
        }
    }
}

/// And conversely: bag count bounded by one everywhere means no duplicates.
pub proof fn lemma_card_bag_unique(s: Seq<String>)
    requires
        forall|c: Seq<char>| #[trigger] card_bag(s).count(c) <= 1,
    ensures
        strs_unique(s),
{
    assert forall|i: int, j: int| 0 <= i < j < s.len() implies #[trigger] str_at(s, i)
        != #[trigger] str_at(s, j) by {
        if str_at(s, i) == str_at(s, j) {
            let c = str_at(s, i);
            lemma_card_bag_remove(s, j);
            lemma_card_bag_member(s, i);
            assert(s.remove(j)[i] == s[i]);
            lemma_card_bag_member(s.remove(j), i);
            assert(card_bag(s).count(c) >= 2);
        }
    }
}

/// A permutation of a duplicate-free list of names is itself
/// duplicate-free and holds the same names.
pub proof fn lemma_permuted_names(a: Seq<String>, b: Seq<String>)
    requires
        card_bag(a) == card_bag(b),
        strs_unique(a),
    ensures
        strs_unique(b),
        forall|x: Seq<char>| #[trigger] str_in(a, x) == str_in(b, x),
{
    assert forall|x: Seq<char>| #[trigger] str_in(a, x) == str_in(b, x) by {
        lemma_card_bag_contains(a, x);
        lemma_card_bag_contains(b, x);
    }
    assert forall|c: Seq<char>| #[trigger] card_bag(b).count(c) <= 1 by {
        lemma_unique_card_bag(a, c);
    }
    lemma_card_bag_unique(b);
}

/// Replacing one hand swaps its cards out of the total bag.
pub proof fn lemma_hands_bag_update(
    h: Seq<(String, Vec<String>)>,
    i: int,
    e: (String, Vec<String>),
)
    requires
        0 <= i < h.len(),
    ensures
        hands_bag(h.update(i, e)).add(card_bag(h[i].1@)) =~= hands_bag(h).add(card_bag(e.1@)),
    decreases h.len(),
{
    let hu = h.update(i, e);
    if i == h.len() - 1 {
        assert(hu.drop_last() =~= h.drop_last());
        assert(hu.last() == e);
        assert(h[i] == h.last());
        assert(hands_bag(hu) == hands_bag(hu.drop_last()).add(card_bag(hu.last().1@)));
        assert(hands_bag(h) == hands_bag(h.drop_last()).add(card_bag(h.last().1@)));
        assert(hands_bag(hu).add(card_bag(h[i].1@)) =~= hands_bag(h).add(card_bag(e.1@)));
    } else {
        assert(hu.drop_last() =~= h.drop_last().update(i, e));
        assert(hu.last() == h.last());
        assert(h.drop_last()[i] == h[i]);
        lemma_hands_bag_update(h.drop_last(), i, e);
        assert(hands_bag(hu) == hands_bag(hu.drop_last()).add(card_bag(hu.last().1@)));
        assert(hands_bag(h) == hands_bag(h.drop_last()).add(card_bag(h.last().1@)));
        assert forall|c: Seq<char>|
            hands_bag(hu).add(card_bag(h[i].1@)).count(c) == hands_bag(h).add(
                card_bag(e.1@),
            ).count(c) by {
            assert(hands_bag(h.drop_last().update(i, e)).add(
                card_bag(h.drop_last()[i].1@),
            ).count(c) == hands_bag(h.drop_last()).add(card_bag(e.1@)).count(c));
        }
        assert(hands_bag(hu).add(card_bag(h[i].1@)) =~= hands_bag(h).add(card_bag(e.1@)));
    }
}

/// Dropping one hand removes exactly its cards from the total bag.
pub proof fn lemma_hands_bag_remove(h: Seq<(String, Vec<String>)>, i: int)
    requires
        0 <= i < h.len(),
    ensures
        hands_bag(h.remove(i)).add(card_bag(h[i].1@)) =~= hands_bag(h),
    decreases h.len(),
{
    if i == h.len() - 1 {
        assert(h.remove(i) =~= h.drop_last());
    } else {
        assert(h.remove(i).drop_last() =~= h.drop_last().remove(i));
        assert(h.remove(i).last() == h.last());
        lemma_hands_bag_remove(h.drop_last(), i);
    }
}

/// Each hand's cards are contained in the total bag.
pub proof fn lemma_hands_bag_member(h: Seq<(String, Vec<String>)>, i: int, c: Seq<char>)
    requires
        0 <= i < h.len(),
    ensures
        hands_bag(h).count(c) >= card_bag(h[i].1@).count(c),
    decreases h.len(),
{
    if i == h.len() - 1 {
        assert(h.last() == h[i]);
    } else {
        assert(h.drop_last()[i] == h[i]);
        lemma_hands_bag_member(h.drop_last(), i, c);
    }
}

/// A card held in two different hands occurs twice in the total bag.
pub proof fn lemma_hands_bag_two(h: Seq<(String, Vec<String>)>, i: int, j: int, c: Seq<char>)
    requires
        0 <= i < j < h.len(),
        card_bag(h[i].1@).count(c) >= 1,
        card_bag(h[j].1@).count(c) >= 1,
    ensures
        hands_bag(h).count(c) >= 2,
    decreases h.len(),
{
    if j == h.len() - 1 {
        assert(h.last() == h[j]);
        lemma_hands_bag_member(h.drop_last(), i, c);
        assert(h.drop_last()[i] == h[i]);
    } else {
        assert(h.drop_last()[i] == h[i]);
        assert(h.drop_last()[j] == h[j]);
        lemma_hands_bag_two(h.drop_last(), i, j, c);
    }
}

} // verus!
