//! Scoring, the end-of-game rules, deck refilling, and the per-stage
//! messages each member receives.

use vstd::prelude::*;
use crate::cards::{card_bag, lemma_card_bag_concat};
use crate::msgs::WinCondition;
use crate::names::{str_at, str_in, strs_unique};
use crate::room::Room;
use crate::tbl::{
    has_key, key_at, unique_keys, value_of, index_of_key, read_entry, put_entry,
    lemma_index_of_key, lemma_key_index_valid,
};
use crate::text::str_eq;

verus! {

/// How many vote entries name the card `c`.
pub open spec fn count_votes_for(votes: Seq<(String, String)>, c: Seq<char>) -> int
    decreases votes.len(),
{
    if votes.len() == 0 {
        0
    } else {
        count_votes_for(votes.drop_last(), c) + if votes.last().1@ == c {
            1int
        } else {
            0int
        }
    }
}

/// The values column of a submission table.
pub open spec fn vals_of(m: Seq<(String, String)>) -> Seq<Seq<char>> {
    Seq::new(m.len(), |i: int| m[i].1@)
}

/// The bag of submitted cards.
pub open spec fn vals_bag(m: Seq<(String, String)>) -> vstd::multiset::Multiset<Seq<char>> {
    vals_of(m).to_multiset()
}

/// The greatest element of a sequence, zero when it is empty.
pub open spec fn seq_max_u16(s: Seq<u16>) -> u16
    decreases s.len(),
{
    if s.len() == 0 {
        0
    } else {
        let m = seq_max_u16(s.drop_last());
        if s.last() > m {
            s.last()
        } else {
            m
        }
    }
}

/// Count the vote entries naming `card`.
pub fn count_votes(votes: &Vec<(String, String)>, card: &str) -> (r: usize)
    ensures
        r == count_votes_for(votes@, card@),
        r <= votes@.len(),
{
    let n = votes.len();
    let mut i: usize = 0;
    let mut c: usize = 0;
    while i < n
        invariant
            i <= n,
            n == votes@.len(),
            c == count_votes_for(votes@.subrange(0, i as int), card@),
            c <= i,
        decreases n - i,
    {
        proof {
            assert(votes@.subrange(0, i + 1).drop_last() =~= votes@.subrange(0, i as int));
            assert(votes@.subrange(0, i + 1).last() == votes@[i as int]);
        }
        if str_eq(votes[i].1.as_str(), card) {
            c = c + 1;
        }
        i = i + 1;
    }
    proof {
        assert(votes@.subrange(0, n as int) =~= votes@);
    }
    c
}

impl Room {
    /// The storyteller's submitted card.
    pub open spec fn active_card(self) -> Seq<char>
        recommends
            self.player_order@.len() > 0,
            has_key(self.player_to_current_card@, self.active_name()),
    {
        value_of(self.player_to_current_card@, self.active_name())@
    }

    /// How many votes the storyteller's card received.
    pub open spec fn votes_for_active(self) -> int {
        count_votes_for(self.player_to_vote@, self.active_card())
    }

    /// Nobody found the storyteller's card.
    pub open spec fn nobody_voted_active(self) -> bool {
        self.votes_for_active() == 0
    }

    /// Everybody found the storyteller's card.
    pub open spec fn all_voted_active(self) -> bool {
        !self.nobody_voted_active() && self.votes_for_active() == self.player_order@.len() - 1
    }

    /// Some but not all votes went to the storyteller's card.
    pub open spec fn vote_split(self) -> bool {
        !self.nobody_voted_active() && !self.all_voted_active()
    }

    /// Votes a player's own submission received from the others.
    pub open spec fn bluff_bonus(self, p: Seq<char>) -> int {
        if has_key(self.player_to_current_card@, p) {
            count_votes_for(self.player_to_vote@, value_of(self.player_to_current_card@, p)@)
        } else {
            0
        }
    }

    /// The score a member gains this round.  The storyteller gains three
    /// exactly when the vote split; a voter gains two when the vote was
    /// unanimous either way, else three for finding the card, plus one
    /// bluff point per vote their own submission attracted.
    pub open spec fn spec_point_change(self, p: Seq<char>) -> int
        recommends
            p == self.active_name() || has_key(self.player_to_vote@, p),
    {
        if p == self.active_name() {
            if self.vote_split() {
                3
            } else {
                0
            }
        } else if self.all_voted_active() {
            2
        } else if self.nobody_voted_active() {
            2 + self.bluff_bonus(p)
        } else {
            (if value_of(self.player_to_vote@, p)@ == self.active_card() {
                3int
            } else {
                0int
            }) + self.bluff_bonus(p)
        }
    }

    /// Compute every member's score change for this round.
    pub fn compute_results(&self) -> (r: Vec<(String, u16)>)
        requires
            unique_keys(self.player_to_vote@),
            unique_keys(self.player_to_current_card@),
            self.player_order@.len() > 0,
            self.active_player < self.player_order@.len(),
            has_key(self.player_to_current_card@, self.active_name()),
            forall|x: Seq<char>|
                #[trigger] has_key(self.player_to_vote@, x) ==> x != self.active_name(),
            self.player_to_vote@.len() <= 0xFFFC,
        ensures
            unique_keys(r@),
            forall|x: Seq<char>|
                #[trigger] has_key(r@, x) == (has_key(self.player_to_vote@, x) || x
                    == self.active_name()),
            forall|x: Seq<char>|
                #[trigger] has_key(r@, x) ==> value_of(r@, x) as int == self.spec_point_change(x),
    {
        let active = self.player_order[self.active_player].clone();
        proof {
            assert(active@ == self.active_name());
        }
        let active_card = match read_entry(&self.player_to_current_card, active.as_str()) {
            Some(c) => c.clone(),
            None => {
                proof {
                    assert(false);
                }
                String::new()
            },
        };
        let vfa = count_votes(&self.player_to_vote, active_card.as_str());
        let n1 = self.player_order.len() - 1;
        let nv = self.player_to_vote.len();
        let mut pc: Vec<(String, u16)> = Vec::new();
        let mut i: usize = 0;
        while i < nv
            invariant
                i <= nv,
                nv == self.player_to_vote@.len(),
                unique_keys(self.player_to_vote@),
                unique_keys(self.player_to_current_card@),
                self.player_order@.len() > 0,
                self.active_player < self.player_order@.len(),
                has_key(self.player_to_current_card@, self.active_name()),
                forall|x: Seq<char>|
                    #[trigger] has_key(self.player_to_vote@, x) ==> x != self.active_name(),
                nv <= 0xFFFC,
                active@ == self.active_name(),
                active_card@ == self.active_card(),
                vfa == self.votes_for_active(),
                vfa <= nv,
                n1 == self.player_order@.len() - 1,
                unique_keys(pc@),
                forall|x: Seq<char>|
                    #[trigger] has_key(pc@, x) == has_key(
                        self.player_to_vote@.take(i as int),
                        x,
                    ),
                forall|x: Seq<char>|
                    #[trigger] has_key(pc@, x) ==> value_of(pc@, x) as int
                        == self.spec_point_change(x),
            decreases nv - i,
        {
            let p = self.player_to_vote[i].0.clone();
            let vcard = self.player_to_vote[i].1.clone();
            proof {
                assert(key_at(self.player_to_vote@, i as int) == p@);
                lemma_index_of_key(self.player_to_vote@, p@, i as int);
                assert(has_key(self.player_to_vote@, p@));
            }
            let base: usize = if vfa == 0 {
                2
            } else if vfa == n1 {
                2
            } else if str_eq(vcard.as_str(), active_card.as_str()) {
                3
            } else {
                0
            };
            let bluff: usize = if vfa != 0 && vfa == n1 {
                0
            } else {
                match read_entry(&self.player_to_current_card, p.as_str()) {
                    Some(card) => count_votes(&self.player_to_vote, card.as_str()),
                    None => 0,
                }
            };
            let total = base + bluff;
            let ghost pc0 = pc@;
            put_entry(&mut pc, p.as_str(), total as u16);
            proof {
                assert(total as u16 as int == self.spec_point_change(p@));
                crate::tbl::lemma_has_key_take_succ(self.player_to_vote@, i as int);
                assert forall|x: Seq<char>| #[trigger] has_key(pc@, x) == has_key(
                    self.player_to_vote@.take(i + 1),
                    x,
                ) by {
                    if x != p@ {
                        assert(has_key(pc@, x) == has_key(pc0, x));
                    }
                }
            }
            i = i + 1;
        }
        proof {
            assert(self.player_to_vote@.take(nv as int) =~= self.player_to_vote@);
        }
        let vote_was_split = vfa != 0 && vfa != n1;
        let aval: u16 = if vote_was_split {
            3
        } else {
            0
        };
        put_entry(&mut pc, active.as_str(), aval);
        pc
    }

    /// Whether the configured win condition has been met.
    pub open spec fn spec_should_end(self) -> bool {
        match self.win_condition {
            WinCondition::Points { target_points } => seq_max_u16(
                crate::room::player_points(self.players@),
            ) >= target_points,
            WinCondition::Cycles { target_cycles } => {
                let per = if self.player_order@.len() > 0 {
                    self.player_order@.len() as int
                } else {
                    self.players@.len() as int
                };
                self.round != 0 && per > 0 && self.round >= target_cycles * per
            },
            WinCondition::CardsFinish => false,
        }
    }

    /// The turn order is never longer than the player table.
    pub proof fn lemma_order_le_players(self)
        requires
            self.wf_base(),
        ensures
            self.player_order@.len() <= self.players@.len(),
    {
        let obs = self.player_order@;
        assert forall|x: Seq<char>| #[trigger] str_in_as_table(obs, x) implies has_key(
            self.players@,
            x,
        ) by {
            let w = choose|w: int| 0 <= w < obs.len() && #[trigger] key_at_list(obs, w) == x;
            assert(str_at(obs, w) == x);
            assert(str_in(obs, x));
        }
        lemma_order_table_len(obs, self.players@);
    }

    /// Whether the game should end, per the win condition.
    pub fn should_end_game(&self) -> (r: bool)
        requires
            self.wf(),
        ensures
            r == self.spec_should_end(),
    {
        match self.win_condition {
            WinCondition::Points { target_points } => {
                let ghost pts = crate::room::player_points(self.players@);
                let n = self.players.len();
                let mut m: u16 = 0;
                let mut i: usize = 0;
                proof {
                    assert(pts.subrange(0, 0) =~= Seq::<u16>::empty());
                }
                while i < n
                    invariant
                        i <= n,
                        n == self.players@.len(),
                        pts == crate::room::player_points(self.players@),
                        m == seq_max_u16(pts.subrange(0, i as int)),
                    decreases n - i,
                {
                    proof {
                        assert(pts.subrange(0, i + 1).drop_last() =~= pts.subrange(0, i as int));
                        assert(pts.subrange(0, i + 1).last() == pts[i as int]);
                    }
                    if self.players[i].1.points > m {
                        m = self.players[i].1.points;
                    }
                    i = i + 1;
                }
                proof {
                    assert(pts.subrange(0, n as int) =~= pts);
                }
                m >= target_points
            },
            WinCondition::Cycles { target_cycles } => {
                if self.round == 0 {
                    return false;
                }
                let per: usize = if self.player_order.len() > 0 {
                    self.player_order.len()
                } else {
                    self.players.len()
                };
                if per == 0 {
                    return false;
                }
                proof {
                    self.lemma_order_le_players();
                    assert(per <= 0xFFFC);
                    assert((target_cycles as int) * (per as int) <= 0xFFFF * 0xFFFC)
                        by (nonlinear_arith)
                        requires
                            target_cycles as int <= 0xFFFF,
                            0 <= per as int <= 0xFFFC,
                    ;
                }
                let required: u64 = (target_cycles as u64) * (per as u64);
                (self.round as u64) >= required
            },
            WinCondition::CardsFinish => false,
        }
    }

    /// Refill the draw pile from the discard pile when it cannot serve
    /// every player, unless the game is meant to end with the cards.
    pub fn check_deck(&mut self) -> (refilled: bool)
        requires
            old(self).wf_tables(),
            old(self).placed_cards() == old(self).base_bag(),
        ensures
            *final(self) == (Room {
                deck: final(self).deck,
                discard_pile: final(self).discard_pile,
                deck_refill_count: final(self).deck_refill_count,
                ..*old(self)
            }),
            final(self).placed_cards() == old(self).placed_cards(),
            refilled == (old(self).deck@.len() < old(self).player_order@.len() && !(old(
                self,
            ).win_condition matches WinCondition::CardsFinish)),
            !refilled ==> *final(self) == *old(self),
            refilled ==> final(self).discard_pile@.len() == 0 && final(self).deck@.len() == old(
                self,
            ).deck@.len() + old(self).discard_pile@.len() && final(self).deck_refill_count as int
                == (if old(self).deck_refill_count < u32::MAX {
                old(self).deck_refill_count + 1
            } else {
                old(self).deck_refill_count as int
            }),
            card_bag(final(self).deck@) == card_bag(old(self).deck@).add(
                card_bag(old(self).discard_pile@),
            ) || !refilled,
    {
        broadcast use vstd::multiset::group_multiset_axioms, vstd::seq_lib::group_to_multiset_ensures;

        if self.deck.len() < self.player_order.len() {
            match self.win_condition {
                WinCondition::CardsFinish => {
                    return false;
                },
                _ => {
                },
            }
            let ghost d0 = self.deck@;
            let ghost p0 = self.discard_pile@;
            if self.discard_pile.len() > 0 {
                crate::sys::shuffle_strings(&mut self.discard_pile);
                let ghost p1 = self.discard_pile@;
                self.deck.append(&mut self.discard_pile);
                proof {
                    lemma_card_bag_concat(d0, p1);
                    assert(card_bag(self.deck@) == card_bag(d0).add(card_bag(p0)));
                    assert(card_bag(self.discard_pile@) =~= vstd::multiset::Multiset::empty())
                        by {
                        assert(crate::names::strs_of(self.discard_pile@) =~= Seq::<
                            Seq<char>,
                        >::empty());
                        assert(Seq::<Seq<char>>::empty().to_multiset() =~= vstd::multiset::Multiset::<
                            Seq<char>,
                        >::empty());
                    }
                    assert(self.placed_cards() =~= old(self).placed_cards());
                }
            } else {
                crate::sys::shuffle_strings(&mut self.deck);
                proof {
                    assert(card_bag(self.deck@) =~= card_bag(d0).add(card_bag(p0))) by {
                        assert(crate::names::strs_of(p0) =~= Seq::<Seq<char>>::empty());
                        assert(Seq::<Seq<char>>::empty().to_multiset() =~= vstd::multiset::Multiset::<
                            Seq<char>,
                        >::empty());
                    }
                    assert(self.placed_cards() =~= old(self).placed_cards());
                }
            }
            self.deck_refill_count = self.deck_refill_count.saturating_add(1);
            return true;
        }
        false
    }

    /// The submitted cards, in a fresh random order.
    pub fn get_center_cards(&self) -> (r: Vec<String>)
        ensures
            r@.len() == self.player_to_current_card@.len(),
            card_bag(r@) == vals_bag(self.player_to_current_card@),
    {
        broadcast use vstd::multiset::group_multiset_axioms, vstd::seq_lib::group_to_multiset_ensures;

        let n = self.player_to_current_card.len();
        let mut center: Vec<String> = Vec::new();
        let mut i: usize = 0;
        while i < n
            invariant
                i <= n,
                n == self.player_to_current_card@.len(),
                center@.len() == i,
                forall|j: int| 0 <= j < i ==> (#[trigger] center@[j])@
                    == self.player_to_current_card@[j].1@,
            decreases n - i,
        {
            center.push(self.player_to_current_card[i].1.clone());
            i = i + 1;
        }
        proof {
            assert(crate::names::strs_of(center@) =~= vals_of(self.player_to_current_card@));
        }
        crate::sys::shuffle_strings(&mut center);
        center
    }
}

/// A duplicate-free list whose members are all table keys is bounded by
/// the table length; a reading of the list as a keyed sequence.
spec fn str_in_as_table(l: Seq<String>, x: Seq<char>) -> bool {
    exists|i: int| 0 <= i < l.len() && #[trigger] key_at_list(l, i) == x
}

spec fn key_at_list(l: Seq<String>, i: int) -> Seq<char> {
    l[i]@
}

proof fn lemma_order_table_len<V>(l: Seq<String>, t: Seq<(String, V)>)
    requires
        strs_unique(l),
        unique_keys(t),
        forall|x: Seq<char>| #[trigger] str_in_as_table(l, x) ==> has_key(t, x),
    ensures
        l.len() <= t.len(),
    decreases l.len(),
{
    if l.len() > 0 {
        let k = key_at_list(l, 0);
        assert(str_in_as_table(l, k));
        lemma_key_index_valid(t, k);
        let j = index_of_key(t, k);
        crate::names::lemma_strs_remove_idx(l, 0);
        crate::tbl::lemma_remove_entry_seq(t, j);
        let l2 = l.remove(0);
        let t2 = t.remove(j);
        assert forall|x: Seq<char>| #[trigger] str_in_as_table(l2, x) implies has_key(t2, x) by {
            let w = choose|w: int| 0 <= w < l2.len() && #[trigger] key_at_list(l2, w) == x;
            assert(str_at(l2, w) == x);
            assert(str_in(l2, x));
            assert(str_in(l, x) && x != str_at(l, 0));
            let w2 = choose|w2: int| 0 <= w2 < l.len() && #[trigger] str_at(l, w2) == x;
            assert(key_at_list(l, w2) == x);
            assert(str_in_as_table(l, x));
        }
        lemma_order_table_len(l2, t2);
    }
}

} // verus!
