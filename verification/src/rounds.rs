//! The round protocol: starting a round, entering the voting stage,
//! computing results, restarting after the storyteller leaves, and the
//! stage reaction to membership changes.

use vstd::prelude::*;
use crate::cards::{
    card_bag, hands_bag, lemma_card_bag_contains, lemma_card_bag_push, lemma_card_bag_remove,
    lemma_hands_bag_two, lemma_hands_bag_update, lemma_unique_card_bag,
};
use crate::msgs::{EngineError, Outbound, PlayerInfo, RoomStage, ServerMsg, WinCondition};
use crate::names::{str_at, str_in, strs_unique, find_str};
use crate::room::Room;
use crate::tbl::{
    has_key, key_at, unique_keys, value_of, index_of_key, read_entry, put_entry, has_entry,
    clone_str_table, lemma_index_of_key, lemma_key_index_valid,
};

verus! {

/// Promotion settles the membership; the later steps of a round's start
/// only reshuffle, deal and relabel, never seating or unseating anyone.
proof fn lemma_membership_after_promote(before: &Room, promoted: Room, now: Room)
    requires
        forall|x: Seq<char>|
            promoted.is_player(x) == (before.is_player(x) || (before.is_observer(x)
                && crate::membership::should_promote(value_of(before.observers@, x)))),
        forall|x: Seq<char>|
            promoted.is_observer(x) == (before.is_observer(x)
                && !crate::membership::should_promote(value_of(before.observers@, x))),
        now.players@.len() == promoted.players@.len(),
        forall|x: Seq<char>|
            #[trigger] has_key(now.players@, x) == has_key(promoted.players@, x),
        now.observers@ == promoted.observers@,
    ensures
        forall|x: Seq<char>|
            now.is_player(x) == (before.is_player(x) || (before.is_observer(x)
                && crate::membership::should_promote(value_of(before.observers@, x)))),
        forall|x: Seq<char>|
            now.is_observer(x) == (before.is_observer(x)
                && !crate::membership::should_promote(value_of(before.observers@, x))),
{
    assert forall|x: Seq<char>| now.is_player(x) == (before.is_player(x) || (
    before.is_observer(x) && crate::membership::should_promote(
        value_of(before.observers@, x),
    ))) by {
        assert(now.is_player(x) == promoted.is_player(x));
    }
    assert forall|x: Seq<char>| now.is_observer(x) == (before.is_observer(x)
        && !crate::membership::should_promote(value_of(before.observers@, x))) by {
        assert(now.is_observer(x) == promoted.is_observer(x));
    }
}

/// Cards one player still needs to reach a full hand.
/// Somewhere past `out0`, `out1` tells the `k`-th name of the turn order
/// its hand for the fresh round.
pub open spec fn start_round_sent(post: Room, out0: Seq<Outbound>, out1: Seq<Outbound>, k: int) -> bool {
    exists|p: int|
        out0.len() <= p < out1.len() && (#[trigger] out1[p] matches Outbound::Direct { name, msg }
            && name@ == str_at(post.player_order@, k) && (
        msg matches ServerMsg::StartRound { hand } && hand@ == value_of(
            post.player_hand@,
            str_at(post.player_order@, k),
        )@))
}

/// A round was opened over `pre`: the stage is choosing, the round
/// counter advanced (saturating), every player holds a full hand, each
/// name in the turn order was sent its hand, and a snapshot closed the
/// output.
pub open spec fn round_started(pre: Room, post: Room, out0: Seq<Outbound>, out1: Seq<Outbound>) -> bool {
    &&& post.stage == RoomStage::ActiveChooses
    &&& post.round as int == (if pre.round < u16::MAX {
        pre.round + 1
    } else {
        pre.round as int
    })
    &&& (forall|x: Seq<char>|
        #[trigger] post.is_player(x) ==> has_key(post.player_hand@, x) && value_of(
            post.player_hand@,
            x,
        )@.len() == crate::room::HAND_SIZE)
    &&& (forall|k: int|
        0 <= k < post.player_order@.len() ==> #[trigger] start_round_sent(post, out0, out1, k))
    &&& (out1.last() matches Outbound::Broadcast(m) && post.is_room_state_of(m))
}

/// `round_started` tolerates an earlier baseline: any pre-state with the
/// same round counter, and any output prefix of the one the round's
/// messages were appended to.
pub proof fn lemma_round_started_weaken(
    pre1: Room,
    pre2: Room,
    post: Room,
    out0: Seq<Outbound>,
    out1: Seq<Outbound>,
    out2: Seq<Outbound>,
)
    requires
        round_started(pre2, post, out1, out2),
        pre1.round == pre2.round,
        out0.len() <= out1.len(),
    ensures
        round_started(pre1, post, out0, out2),
{
    assert forall|k: int|
        0 <= k < post.player_order@.len() implies #[trigger] start_round_sent(
        post,
        out0,
        out2,
        k,
    ) by {
        assert(start_round_sent(post, out1, out2, k));
        let p0 = choose|p0: int|
            out1.len() <= p0 < out2.len() && (#[trigger] out2[p0] matches Outbound::Direct {
                name,
                msg,
            } && name@ == str_at(post.player_order@, k) && (
            msg matches ServerMsg::StartRound { hand } && hand@ == value_of(
                post.player_hand@,
                str_at(post.player_order@, k),
            )@));
        assert(out0.len() <= p0 < out2.len());
    }
}

pub open spec fn slot_need(h: Seq<(String, Vec<String>)>, k: Seq<char>) -> int {
    if has_key(h, k) {
        if value_of(h, k)@.len() <= crate::room::HAND_SIZE {
            crate::room::HAND_SIZE - value_of(h, k)@.len()
        } else {
            0
        }
    } else {
        crate::room::HAND_SIZE as int
    }
}

/// Cards a deal must draw to fill every listed player's hand.
pub open spec fn deal_deficit(t: Seq<(String, PlayerInfo)>, h: Seq<(String, Vec<String>)>) -> int
    decreases t.len(),
{
    if t.len() == 0 {
        0
    } else {
        deal_deficit(t.drop_last(), h) + slot_need(h, key_at(t, t.len() - 1))
    }
}

proof fn lemma_deficit_nonneg(t: Seq<(String, PlayerInfo)>, h: Seq<(String, Vec<String>)>)
    ensures
        deal_deficit(t, h) >= 0,
    decreases t.len(),
{
    if t.len() > 0 {
        lemma_deficit_nonneg(t.drop_last(), h);
    }
}

/// A longer prefix never needs fewer cards than a shorter one.
proof fn lemma_deficit_take_le(
    t: Seq<(String, PlayerInfo)>,
    h: Seq<(String, Vec<String>)>,
    j: int,
)
    requires
        0 <= j <= t.len(),
    ensures
        deal_deficit(t.take(j), h) <= deal_deficit(t, h),
    decreases t.len() - j,
{
    if j == t.len() {
        assert(t.take(j) =~= t);
    } else {
        lemma_deficit_prefix_bound(t, h, j);
        lemma_deficit_take_le(t, h, j + 1);
        assert(slot_need(h, key_at(t, j)) >= 0);
    }
}

/// A prefix's deficit plus the next player's need never exceeds the whole.
proof fn lemma_deficit_prefix_bound(
    t: Seq<(String, PlayerInfo)>,
    h: Seq<(String, Vec<String>)>,
    j: int,
)
    requires
        0 <= j < t.len(),
    ensures
        deal_deficit(t.take(j), h) + slot_need(h, key_at(t, j)) <= deal_deficit(t, h),
        deal_deficit(t.take(j + 1), h) == deal_deficit(t.take(j), h) + slot_need(h, key_at(t, j)),
    decreases t.len(),
{
    assert(t.take(j + 1).drop_last() =~= t.take(j));
    assert(key_at(t.take(j + 1), j) == key_at(t, j));
    if j == t.len() - 1 {
        assert(t.take(j) =~= t.drop_last());
        assert(t.take(j + 1) =~= t);
    } else {
        assert(t.drop_last().take(j) =~= t.take(j));
        assert(t.drop_last().take(j + 1) =~= t.take(j + 1));
        assert(key_at(t.drop_last(), j) == key_at(t, j));
        lemma_deficit_prefix_bound(t.drop_last(), h, j);
        assert(slot_need(h, key_at(t, t.len() - 1)) >= 0);
    }
}

/// Appending players without hands raises the deficit by a full hand each.
proof fn lemma_deficit_append(
    t1: Seq<(String, PlayerInfo)>,
    t2: Seq<(String, PlayerInfo)>,
    h: Seq<(String, Vec<String>)>,
)
    requires
        t1.len() <= t2.len(),
        forall|i: int| 0 <= i < t1.len() ==> t2[i] == t1[i],
        forall|i: int|
            t1.len() <= i < t2.len() ==> !has_key(h, #[trigger] key_at(t2, i)),
    ensures
        deal_deficit(t2, h) == deal_deficit(t1, h) + crate::room::HAND_SIZE * (t2.len()
            - t1.len()),
    decreases t2.len() - t1.len(),
{
    if t2.len() == t1.len() {
        assert(t2 =~= t1);
    } else {
        assert(!has_key(h, key_at(t2, t2.len() - 1)));
        assert(forall|i: int|
            0 <= i < t1.len() ==> #[trigger] t2.drop_last()[i] == t1[i]);
        assert forall|i: int| t1.len() <= i < t2.drop_last().len() implies !has_key(
            h,
            #[trigger] key_at(t2.drop_last(), i),
        ) by {
            assert(key_at(t2.drop_last(), i) == key_at(t2, i));
        }
        lemma_deficit_append(t1, t2.drop_last(), h);
    }
}

/// The deficit reads keys only: tables with pointwise equal keys agree.
proof fn lemma_deficit_same_keys(
    t1: Seq<(String, PlayerInfo)>,
    t2: Seq<(String, PlayerInfo)>,
    h: Seq<(String, Vec<String>)>,
)
    requires
        t1.len() == t2.len(),
        forall|i: int| 0 <= i < t1.len() ==> #[trigger] key_at(t1, i) == key_at(t2, i),
    ensures
        deal_deficit(t1, h) == deal_deficit(t2, h),
    decreases t1.len(),
{
    if t1.len() > 0 {
        assert forall|i: int| 0 <= i < t1.len() - 1 implies #[trigger] key_at(t1.drop_last(), i)
            == key_at(t2.drop_last(), i) by {
            assert(key_at(t1.drop_last(), i) == key_at(t1, i));
            assert(key_at(t2.drop_last(), i) == key_at(t2, i));
        }
        lemma_deficit_same_keys(t1.drop_last(), t2.drop_last(), h);
        assert(key_at(t1, t1.len() - 1) == key_at(t2, t1.len() - 1));
    }
}

impl Room {
    /// How many players the next round will seat: the current ones plus
    /// every observer due promotion.
    pub open spec fn upcoming_players(self) -> int {
        self.players@.len() + crate::membership::count_promotable(self.observers@)
    }

    /// Cards the next round must deal: what the current hands lack, plus
    /// a full hand for every observer due promotion.
    pub open spec fn cards_needed(self) -> int {
        deal_deficit(self.players@, self.player_hand@) + crate::room::HAND_SIZE
            * crate::membership::count_promotable(self.observers@)
    }

    /// Cards the next deal may draw: the deck, joined by the discard pile
    /// exactly when the pre-deal refill triggers.
    pub open spec fn deal_pool(self) -> int {
        if self.round != 0 && self.deck@.len() < self.upcoming_players() && self.win_condition
            != WinCondition::CardsFinish {
            self.deck@.len() + self.discard_pile@.len() as int
        } else {
            self.deck@.len() as int
        }
    }
}

impl Room {
    /// Two different players never hold the same card: conservation plus
    /// the distinctness of the base deck.
    pub proof fn lemma_distinct_hand_cards(self, p: Seq<char>, q: Seq<char>, c: Seq<char>)
        requires
            self.placed_cards() == self.base_bag(),
            strs_unique(self.base_deck@),
            unique_keys(self.player_hand@),
            has_key(self.player_hand@, p),
            has_key(self.player_hand@, q),
            p != q,
        ensures
            !(str_in(value_of(self.player_hand@, p)@, c) && str_in(
                value_of(self.player_hand@, q)@,
                c,
            )),
    {
        if !(str_in(value_of(self.player_hand@, p)@, c) && str_in(
            value_of(self.player_hand@, q)@,
            c,
        )) {
            return;
        }
        broadcast use vstd::multiset::group_multiset_axioms, vstd::seq_lib::group_to_multiset_ensures;

        let h = self.player_hand@;
        lemma_key_index_valid(h, p);
        lemma_key_index_valid(h, q);
        let ip = index_of_key(h, p);
        let iq = index_of_key(h, q);
        lemma_index_of_key(h, p, ip);
        lemma_index_of_key(h, q, iq);
        assert(ip != iq) by {
            if ip == iq {
                assert(key_at(h, ip) == p);
                assert(key_at(h, iq) == q);
            }
        }
        lemma_card_bag_contains(h[ip].1@, c);
        lemma_card_bag_contains(h[iq].1@, c);
        if ip < iq {
            lemma_hands_bag_two(h, ip, iq, c);
        } else {
            lemma_hands_bag_two(h, iq, ip, c);
        }
        assert(self.placed_cards().count(c) >= 2);
        lemma_unique_card_bag(self.base_deck@, c);
    }

    /// A player can enter the voting stage: they have submitted a card,
    /// or hold at least one to submit for them.
    pub open spec fn can_submit(self, p: Seq<char>) -> bool {
        has_key(self.player_to_current_card@, p) || (has_key(self.player_hand@, p) && value_of(
            self.player_hand@,
            p,
        )@.len() > 0)
    }

    /// Move the round into voting: pick a card for every player who has
    /// not chosen, move all submitted cards from the hands onto the
    /// discard pile, and send everyone the shuffled center.  Fails, with
    /// nothing changed, when a player has neither a submission nor any
    /// card to submit.
    pub fn init_voting(&mut self, out: &mut Vec<Outbound>) -> (r: Result<(), EngineError>)
        requires
            old(self).wf(),
            old(self).stage == RoomStage::PlayersChoose,
        ensures
            match r {
                Ok(()) => {
                    &&& final(self).wf()
                    &&& final(self).stage == RoomStage::Voting
                    &&& *final(self) == (Room {
                        stage: final(self).stage,
                        players: final(self).players,
                        player_hand: final(self).player_hand,
                        discard_pile: final(self).discard_pile,
                        player_to_current_card: final(self).player_to_current_card,
                        ..*old(self)
                    })
                    &&& (forall|x: Seq<char>|
                        #[trigger] has_key(final(self).player_to_current_card@, x) == (has_key(
                            old(self).player_to_current_card@,
                            x,
                        ) || old(self).is_player(x)))
                    &&& (forall|x: Seq<char>|
                        has_key(old(self).player_to_current_card@, x) ==> value_of(
                            final(self).player_to_current_card@,
                            x,
                        ) == value_of(old(self).player_to_current_card@, x))
                    &&& crate::room::count_ready(final(self).players@) == 0
                    &&& (forall|x: Seq<char>|
                        final(self).is_player(x) == old(self).is_player(x))
                    &&& final(self).observers@ == old(self).observers@
                    &&& (forall|x: Seq<char>|
                        has_key(old(self).player_to_current_card@, x) && !old(self).is_player(x)
                            ==> value_of(final(self).player_to_current_card@, x) == value_of(
                            old(self).player_to_current_card@,
                            x,
                        ))
                    &&& (forall|x: Seq<char>|
                        #[trigger] has_key(final(self).player_to_current_card@, x) && !has_key(
                            old(self).player_to_current_card@,
                            x,
                        ) ==> str_in(
                            value_of(old(self).player_hand@, x)@,
                            value_of(final(self).player_to_current_card@, x)@,
                        ))
                    &&& final(out)@.len() == old(out)@.len() + old(self).player_order@.len() + 1
                    &&& (forall|i: int|
                        0 <= i < old(out)@.len() ==> final(out)@[i] == old(out)@[i])
                    &&& (forall|k: int|
                        0 <= k < old(self).player_order@.len()
                            ==> (#[trigger] final(out)@[old(out)@.len() + k]
                            matches Outbound::Direct { name, msg } && name@ == str_at(
                            old(self).player_order@,
                            k,
                        ) && (msg matches ServerMsg::BeginVoting {
                            center_cards,
                            description,
                            disabled_card,
                        } && card_bag(center_cards@) == crate::engine::vals_bag(final(self).player_to_current_card@) && description == final(self).current_description && disabled_card == (
                        if str_at(final(self).player_order@, k) == final(self).active_name() {
                            Option::<String>::None
                        } else if has_key(final(self).player_to_current_card@, str_at(final(self).player_order@, k)) {
                            Option::Some(value_of(final(self).player_to_current_card@, str_at(final(self).player_order@, k)))
                        } else {
                            Option::<String>::None
                        }))))
                    &&& (final(out)@.last() matches Outbound::Broadcast(m) && final(self).is_room_state_of(m))
                },
                Err(e) => *final(self) == *old(self) && final(out)@ == old(out)@ && e
                    == EngineError::DeckExhausted && (exists|j: int|
                    0 <= j < old(self).player_order@.len() && !old(self).can_submit(
                        #[trigger] str_at(old(self).player_order@, j),
                    )),
            },
    {
        let n = self.player_order.len();
        // Every player must be able to enter voting before anything moves.
        let mut i: usize = 0;
        while i < n
            invariant
                i <= n,
                *self == *old(self),
                old(self).wf(),
                old(self).stage == RoomStage::PlayersChoose,
                n == self.player_order@.len(),
                forall|j: int|
                    0 <= j < i ==> self.can_submit(#[trigger] str_at(self.player_order@, j)),
            decreases n - i,
        {
            let p = &self.player_order[i];
            if !has_entry(&self.player_to_current_card, p.as_str()) {
                match read_entry(&self.player_hand, p.as_str()) {
                    Some(h) => {
                        if h.len() == 0 {
                            proof {
                                assert(!self.can_submit(str_at(self.player_order@, i as int)));
                            }
                            return Err(EngineError::DeckExhausted);
                        }
                    },
                    None => {
                        proof {
                            assert(!self.can_submit(str_at(self.player_order@, i as int)));
                        }
                        return Err(EngineError::DeckExhausted);
                    },
                }
            }
            proof {
                assert(self.can_submit(str_at(self.player_order@, i as int)));
            }
            i = i + 1;
        }
        // Pick a random card for everyone who has not chosen.
        let ghost s0 = *old(self);
        let mut i: usize = 0;
        while i < n
            invariant
                i <= n,
                s0 == *old(self),
                s0.wf(),
                s0.stage == RoomStage::PlayersChoose,
                n == s0.player_order@.len(),
                forall|j: int|
                    0 <= j < n ==> s0.can_submit(#[trigger] str_at(s0.player_order@, j)),
                *self == (Room {
                    player_to_current_card: self.player_to_current_card,
                    ..s0
                }),
                unique_keys(self.player_to_current_card@),
                forall|x: Seq<char>|
                    #[trigger] has_key(self.player_to_current_card@, x) ==> self.is_player(x),
                forall|x: Seq<char>|
                    has_key(s0.player_to_current_card@, x) ==> has_key(
                        self.player_to_current_card@,
                        x,
                    ) && value_of(self.player_to_current_card@, x) == value_of(
                        s0.player_to_current_card@,
                        x,
                    ),
                forall|x: Seq<char>|
                    #[trigger] has_key(self.player_to_current_card@, x) ==> (has_key(
                        s0.player_to_current_card@,
                        x,
                    ) || str_in(s0.player_order@, x)),
                forall|j: int|
                    0 <= j < i ==> has_key(
                        self.player_to_current_card@,
                        #[trigger] str_at(s0.player_order@, j),
                    ),
                forall|i2: int|
                    0 <= i2 < self.player_to_current_card@.len() ==> has_key(
                        self.player_hand@,
                        #[trigger] key_at(self.player_to_current_card@, i2),
                    ) && str_in(
                        value_of(self.player_hand@, key_at(self.player_to_current_card@, i2))@,
                        self.player_to_current_card@[i2].1@,
                    ),
                forall|i2: int, j2: int|
                    0 <= i2 < j2 < self.player_to_current_card@.len()
                        ==> (#[trigger] self.player_to_current_card@[i2]).1@
                        != (#[trigger] self.player_to_current_card@[j2]).1@,
            decreases n - i,
        {
            let p = self.player_order[i].clone();
            proof {
                assert(str_at(self.player_order@, i as int) == p@);
                assert(self.is_player(p@));
            }
            if !has_entry(&self.player_to_current_card, p.as_str()) {
                let hand = match read_entry(&self.player_hand, p.as_str()) {
                    Some(h) => h,
                    None => {
                        proof {
                            assert(self.can_submit(p@));
                            assert(false);
                        }
                        return Err(EngineError::DeckExhausted);
                    },
                };
                proof {
                    assert(self.can_submit(p@));
                }
                let pick = crate::sys::random_below(hand.len());
                let card = hand[pick].clone();
                let ghost cur0 = self.player_to_current_card@;
                proof {
                    assert(str_at(value_of(self.player_hand@, p@)@, pick as int) == card@);
                    assert(str_in(value_of(self.player_hand@, p@)@, card@));
                    // The fresh pick cannot equal any existing submission:
                    // those sit in other players' hands.
                    assert forall|i2: int| 0 <= i2 < cur0.len() implies cur0[i2].1@ != card@ by {
                        let q = key_at(cur0, i2);
                        lemma_index_of_key(cur0, q, i2);
                        assert(has_key(cur0, q));
                        if q == p@ {
                            assert(has_key(cur0, p@));
                        } else {
                            if cur0[i2].1@ == card@ {
                                self.lemma_distinct_hand_cards(q, p@, card@);
                            }
                        }
                    }
                }
                put_entry(&mut self.player_to_current_card, p.as_str(), card);
                proof {
                    lemma_key_index_valid(self.player_to_current_card@, p@);
                    assert forall|i2: int, j2: int|
                        0 <= i2 < j2 < self.player_to_current_card@.len() implies (
                    #[trigger] self.player_to_current_card@[i2]).1@
                        != (#[trigger] self.player_to_current_card@[j2]).1@ by {
                        assert(self.player_to_current_card@.drop_last() == cur0);
                        if j2 < cur0.len() {
                            assert(self.player_to_current_card@[i2] == cur0[i2]);
                            assert(self.player_to_current_card@[j2] == cur0[j2]);
                        } else {
                            assert(self.player_to_current_card@[i2] == cur0[i2]);
                            assert(self.player_to_current_card@[j2].1@ == card@);
                        }
                    }
                    assert forall|i2: int|
                        0 <= i2 < self.player_to_current_card@.len() implies has_key(
                        self.player_hand@,
                        #[trigger] key_at(self.player_to_current_card@, i2),
                    ) && str_in(
                        value_of(self.player_hand@, key_at(self.player_to_current_card@, i2))@,
                        self.player_to_current_card@[i2].1@,
                    ) by {
                        if i2 < cur0.len() {
                            assert(self.player_to_current_card@[i2] == cur0[i2]);
                            assert(key_at(self.player_to_current_card@, i2) == key_at(cur0, i2));
                        } else {
                            assert(key_at(self.player_to_current_card@, i2) == p@);
                        }
                    }
                }
            }
            i = i + 1;
        }
        self.clear_ready();
        // Submitted cards leave the hands for the discard pile.
        let submissions = clone_str_table(&self.player_to_current_card);
        let ghost s1 = *self;
        let m = submissions.len();
        let mut k: usize = 0;
        while k < m
            invariant
                k <= m,
                m == submissions@.len(),
                submissions@ == s1.player_to_current_card@,
                s1.placed_cards() == s1.base_bag(),
                strs_unique(s1.base_deck@),
                unique_keys(submissions@),
                *self == (Room {
                    player_hand: self.player_hand,
                    discard_pile: self.discard_pile,
                    ..s1
                }),
                unique_keys(self.player_hand@),
                self.placed_cards() == s1.placed_cards(),
                forall|x: Seq<char>|
                    #[trigger] has_key(self.player_hand@, x) == has_key(s1.player_hand@, x),
                forall|i2: int|
                    0 <= i2 < self.player_hand@.len() ==> (#[trigger] self.player_hand@[i2]).1@.len()
                        <= crate::room::HAND_SIZE,
                forall|c: Seq<char>|
                    str_in(s1.discard_pile@, c) ==> str_in(self.discard_pile@, c),
                forall|i2: int|
                    k <= i2 < m ==> has_key(
                        self.player_hand@,
                        #[trigger] key_at(submissions@, i2),
                    ) && str_in(
                        value_of(self.player_hand@, key_at(submissions@, i2))@,
                        submissions@[i2].1@,
                    ),
                forall|i2: int|
                    0 <= i2 < k ==> str_in(
                        self.discard_pile@,
                        (#[trigger] submissions@[i2]).1@,
                    ),
            decreases m - k,
        {
            broadcast use vstd::multiset::group_multiset_axioms, vstd::seq_lib::group_to_multiset_ensures;

            let p = submissions[k].0.clone();
            let card = submissions[k].1.clone();
            proof {
                assert(key_at(submissions@, k as int) == p@);
            }
            let hand = match read_entry(&self.player_hand, p.as_str()) {
                Some(h) => h.clone(),
                None => {
                    proof {
                        assert(false);
                    }
                    Vec::new()
                },
            };
            let pos = match find_str(&hand, card.as_str()) {
                Some(pos) => pos,
                None => {
                    proof {
                        assert(false);
                    }
                    0
                },
            };
            let ghost hand0 = hand@;
            let ghost hands0 = self.player_hand@;
            let ghost discard0 = self.discard_pile@;
            let mut hand2 = hand;
            hand2.remove(pos);
            proof {
                lemma_key_index_valid(hands0, p@);
                lemma_index_of_key(hands0, p@, index_of_key(hands0, p@));
                lemma_card_bag_remove(hand0, pos as int);
                crate::cards::lemma_card_bag_member(hand0, pos as int);
                assert(hand2@ == hand0.remove(pos as int));
            }
            put_entry(&mut self.player_hand, p.as_str(), hand2);
            self.discard_pile.push(card);
            proof {
                let idx = index_of_key(hands0, p@);
                lemma_hands_bag_update(hands0, idx, (hands0[idx].0, hand2));
                assert(self.player_hand@ == hands0.update(idx, (hands0[idx].0, hand2)));
                lemma_card_bag_push(discard0, submissions@[k as int].1);
                assert forall|c: Seq<char>|
                    self.placed_cards().count(c) == s1.placed_cards().count(c) by {
                    assert(hands_bag(hands0.update(idx, (hands0[idx].0, hand2))).add(
                        card_bag(hands0[idx].1@),
                    ).count(c) == hands_bag(hands0).add(card_bag(hand2@)).count(c));
                    assert(card_bag(hand2@).count(c) == card_bag(hand0).count(c) - (if hand0[
                        pos as int
                    ]@ == c {
                        1int
                    } else {
                        0int
                    }));
                }
                assert(self.placed_cards() =~= s1.placed_cards());
                assert forall|c: Seq<char>|
                    str_in(discard0, c) implies str_in(self.discard_pile@, c) by {
                    let w = choose|w: int|
                        0 <= w < discard0.len() && #[trigger] str_at(discard0, w) == c;
                    assert(str_at(self.discard_pile@, w) == c);
                }
                assert(str_at(self.discard_pile@, discard0.len() as int)
                    == submissions@[k as int].1@);
                assert forall|i2: int| k + 1 <= i2 < m implies has_key(
                    self.player_hand@,
                    #[trigger] key_at(submissions@, i2),
                ) && str_in(
                    value_of(self.player_hand@, key_at(submissions@, i2))@,
                    submissions@[i2].1@,
                ) by {
                    let q = key_at(submissions@, i2);
                    lemma_index_of_key(submissions@, q, i2);
                    assert(q != p@);
                    assert(value_of(self.player_hand@, q) == value_of(hands0, q));
                }
                assert forall|i2: int|
                    0 <= i2 < self.player_hand@.len() implies (
                #[trigger] self.player_hand@[i2]).1@.len() <= crate::room::HAND_SIZE by {
                    if i2 != idx {
                        assert(self.player_hand@[i2] == hands0[i2]);
                    }
                }
            }
            k = k + 1;
        }
        self.stage = RoomStage::Voting;
        proof {
            assert forall|i2: int|
                0 <= i2 < self.player_to_current_card@.len() implies str_in(
                self.discard_pile@,
                (#[trigger] self.player_to_current_card@[i2]).1@,
            ) by {
                assert(submissions@[i2] == self.player_to_current_card@[i2]);
            }
            assert(self.wf_base());
            assert(has_key(self.player_to_current_card@, self.active_name())) by {
                assert(str_in(s0.player_order@, s0.active_name()));
                assert(has_key(
                    self.player_to_current_card@,
                    str_at(s0.player_order@, s0.active_player as int),
                ));
            }
            assert(self.wf_coherent());
        }
        // Tell every player what stands in the center.
        let ghost out0 = out@;
        let mut k2: usize = 0;
        while k2 < n
            invariant
                k2 <= n,
                n == self.player_order@.len(),
                self.wf(),
                self.stage == RoomStage::Voting,
                out@.len() == out0.len() + k2,
                forall|i2: int| 0 <= i2 < out0.len() ==> out@[i2] == out0[i2],
                forall|j: int|
                    0 <= j < k2 ==> (#[trigger] out@[out0.len() + j]
                        matches Outbound::Direct { name, msg } && name@ == str_at(
                        self.player_order@,
                        j,
                    ) && (msg matches ServerMsg::BeginVoting {
                            center_cards,
                            description,
                            disabled_card,
                        } && card_bag(center_cards@) == crate::engine::vals_bag(self.player_to_current_card@) && description == self.current_description && disabled_card == (
                        if str_at(self.player_order@, j) == self.active_name() {
                            Option::<String>::None
                        } else if has_key(self.player_to_current_card@, str_at(self.player_order@, j)) {
                            Option::Some(value_of(self.player_to_current_card@, str_at(self.player_order@, j)))
                        } else {
                            Option::<String>::None
                        }))),
            decreases n - k2,
        {
            let pname = self.player_order[k2].clone();
            let msg = match self.get_msg(Some(pname.as_str())) {
                Some(m) => m,
                None => {
                    proof {
                        assert(false);
                    }
                    ServerMsg::EndGame {  }
                },
            };
            out.push(Outbound::Direct { name: pname, msg });
            k2 = k2 + 1;
        }
        let state_msg = self.room_state();
        out.push(Outbound::Broadcast(state_msg));
        Ok(())
    }

    /// Close the voting stage: every non-voter is given a random vote
    /// that is never their own submission, the score changes are applied,
    /// and everyone receives the results and a fresh snapshot.
    #[verifier::rlimit(50)]
    pub fn init_results(&mut self, out: &mut Vec<Outbound>)
        requires
            old(self).wf(),
            old(self).stage == RoomStage::Voting,
        ensures
            final(self).wf(),
            final(self).stage == RoomStage::Results,
            *final(self) == (Room {
                stage: final(self).stage,
                players: final(self).players,
                player_to_vote: final(self).player_to_vote,
                ..*old(self)
            }),
            forall|x: Seq<char>|
                has_key(old(self).player_to_vote@, x) ==> has_key(final(self).player_to_vote@, x)
                    && value_of(final(self).player_to_vote@, x) == value_of(
                    old(self).player_to_vote@,
                    x,
                ),
            forall|x: Seq<char>|
                #[trigger] has_key(old(self).players@, x) && x != old(self).active_name()
                    ==> has_key(final(self).player_to_vote@, x),
            // A vote filled in for a silent player names a center card.
            forall|x: Seq<char>|
                #[trigger] has_key(final(self).player_to_vote@, x) && !has_key(
                    old(self).player_to_vote@,
                    x,
                ) ==> (exists|j: int|
                    0 <= j < old(self).player_to_current_card@.len() && (
                    #[trigger] old(self).player_to_current_card@[j]).1@ == value_of(
                        final(self).player_to_vote@,
                        x,
                    )@),
            forall|x: Seq<char>|
                #[trigger] has_key(old(self).players@, x) ==> value_of(final(self).players@, x)
                    == (crate::msgs::PlayerInfo {
                    connected: value_of(old(self).players@, x).connected,
                    points: (if value_of(old(self).players@, x).points + final(self).spec_point_change(x) > u16::MAX {
                        u16::MAX as int
                    } else {
                        value_of(old(self).players@, x).points + final(self).spec_point_change(x)
                    }) as u16,
                    ready: false,
                }),
            final(out)@.len() == old(out)@.len() + 2,
            forall|i: int| 0 <= i < old(out)@.len() ==> final(out)@[i] == old(out)@[i],
            forall|x: Seq<char>| final(self).is_player(x) == old(self).is_player(x),
            final(self).observers@ == old(self).observers@,
            (final(out)@[old(out)@.len() as int] matches Outbound::Broadcast(m) && (
            m matches ServerMsg::Results {
                player_to_vote,
                player_to_current_card,
                active_card,
                point_change,
            } && player_to_vote@ == final(self).player_to_vote@ && player_to_current_card@
                == final(self).player_to_current_card@ && active_card@ == final(self).active_card() && unique_keys(point_change@) && (forall|x: Seq<char>|
                #[trigger] has_key(point_change@, x) == (has_key(final(self).player_to_vote@, x)
                    || x == final(self).active_name())) && (forall|x: Seq<char>|
                #[trigger] has_key(point_change@, x) ==> value_of(point_change@, x) as int
                    == final(self).spec_point_change(x)))),
            (final(out)@.last() matches Outbound::Broadcast(m) && final(self).is_room_state_of(
                m,
            )),
    {
        let ghost s0 = *old(self);
        let active_name_s = self.player_order[self.active_player].clone();
        proof {
            assert(active_name_s@ == self.active_name());
        }
        let n = self.player_order.len();
        let mut k: usize = 0;
        // Give every silent player a vote that is not their own card.
        while k < n
            invariant
                k <= n,
                s0 == *old(self),
                s0.wf(),
                s0.stage == RoomStage::Voting,
                n == s0.player_order@.len(),
                active_name_s@ == s0.active_name(),
                *self == (Room { player_to_vote: self.player_to_vote, ..s0 }),
                unique_keys(self.player_to_vote@),
                forall|x: Seq<char>|
                    #[trigger] has_key(self.player_to_vote@, x) ==> self.is_player(x) && x
                        != s0.active_name(),
                forall|x: Seq<char>|
                    has_key(s0.player_to_vote@, x) ==> has_key(self.player_to_vote@, x)
                        && value_of(self.player_to_vote@, x) == value_of(s0.player_to_vote@, x),
                forall|i2: int|
                    0 <= i2 < self.player_to_vote@.len() ==> (has_key(
                        self.player_to_current_card@,
                        #[trigger] key_at(self.player_to_vote@, i2),
                    ) ==> self.player_to_vote@[i2].1@ != value_of(
                        self.player_to_current_card@,
                        key_at(self.player_to_vote@, i2),
                    )@),
                forall|j: int|
                    0 <= j < k ==> (str_at(s0.player_order@, j) == s0.active_name() || has_key(
                        self.player_to_vote@,
                        #[trigger] str_at(s0.player_order@, j),
                    )),
                forall|x: Seq<char>|
                    #[trigger] has_key(self.player_to_vote@, x) && !has_key(
                        s0.player_to_vote@,
                        x,
                    ) ==> (exists|j2: int|
                        0 <= j2 < self.player_to_current_card@.len() && (
                        #[trigger] self.player_to_current_card@[j2]).1@ == value_of(
                            self.player_to_vote@,
                            x,
                        )@),
            decreases n - k,
        {
            let p = self.player_order[k].clone();
            proof {
                assert(str_at(s0.player_order@, k as int) == p@);
                assert(self.is_player(p@));
            }
            if !crate::text::str_eq(p.as_str(), active_name_s.as_str()) && !has_entry(
                &self.player_to_vote,
                p.as_str(),
            ) {
                // Candidate cards: every submission except the player's own.
                let own: Option<String> = match read_entry(
                    &self.player_to_current_card,
                    p.as_str(),
                ) {
                    Some(c) => Some(c.clone()),
                    None => None,
                };
                let nc = self.player_to_current_card.len();
                let mut cands: Vec<String> = Vec::new();
                let mut t: usize = 0;
                while t < nc
                    invariant
                        t <= nc,
                        nc == self.player_to_current_card@.len(),
                        unique_keys(self.player_to_current_card@),
                        own == (if has_key(self.player_to_current_card@, p@) {
                            Some(value_of(self.player_to_current_card@, p@))
                        } else {
                            None::<String>
                        }),
                        forall|i2: int|
                            0 <= i2 < cands@.len() ==> (exists|j2: int|
                                0 <= j2 < nc && (#[trigger] cands@[i2])@
                                    == self.player_to_current_card@[j2].1@),
                        forall|i2: int|
                            0 <= i2 < cands@.len() ==> (match own {
                                Some(o) => (#[trigger] cands@[i2])@ != o@,
                                None => true,
                            }),
                        forall|j2: int|
                            0 <= j2 < t && (match own {
                                Some(o) => (#[trigger] self.player_to_current_card@[j2]).1@ != o@,
                                None => true,
                            }) ==> cands@.len() > 0,
                    decreases nc - t,
                {
                    let card = self.player_to_current_card[t].1.clone();
                    let keep = match &own {
                        Some(o) => !crate::text::str_eq(card.as_str(), o.as_str()),
                        None => true,
                    };
                    if keep {
                        let ghost prev = cands@;
                        cands.push(card);
                        proof {
                            assert(cands@[prev.len() as int]@
                                == self.player_to_current_card@[t as int].1@);
                            assert(forall|i2: int|
                                0 <= i2 < prev.len() ==> cands@[i2] == prev[i2]);
                        }
                    }
                    t = t + 1;
                }
                proof {
                    // The storyteller's submission always qualifies.
                    assert(has_key(self.player_to_current_card@, s0.active_name()));
                    lemma_key_index_valid(self.player_to_current_card@, s0.active_name());
                    let ai = index_of_key(self.player_to_current_card@, s0.active_name());
                    lemma_index_of_key(self.player_to_current_card@, s0.active_name(), ai);
                    match own {
                        Some(o) => {
                            assert(has_key(self.player_to_current_card@, p@));
                            lemma_key_index_valid(self.player_to_current_card@, p@);
                            let pi = index_of_key(self.player_to_current_card@, p@);
                            lemma_index_of_key(self.player_to_current_card@, p@, pi);
                            assert(pi != ai) by {
                                if pi == ai {
                                    assert(key_at(self.player_to_current_card@, pi) == p@);
                                    assert(key_at(self.player_to_current_card@, ai)
                                        == s0.active_name());
                                }
                            }
                            if pi < ai {
                                assert(self.player_to_current_card@[ai].1@ != o@);
                            } else {
                                assert(self.player_to_current_card@[ai].1@ != o@);
                            }
                        },
                        None => {
                        },
                    }
                    assert(cands@.len() > 0);
                }
                let pick = crate::sys::random_below(cands.len());
                let vote = cands[pick].clone();
                let ghost votes0 = self.player_to_vote@;
                put_entry(&mut self.player_to_vote, p.as_str(), vote);
                proof {
                    assert forall|i2: int|
                        0 <= i2 < self.player_to_vote@.len() implies (has_key(
                        self.player_to_current_card@,
                        #[trigger] key_at(self.player_to_vote@, i2),
                    ) ==> self.player_to_vote@[i2].1@ != value_of(
                        self.player_to_current_card@,
                        key_at(self.player_to_vote@, i2),
                    )@) by {
                        assert(self.player_to_vote@.drop_last() == votes0);
                        if i2 < votes0.len() {
                            assert(self.player_to_vote@[i2] == votes0[i2]);
                            assert(key_at(self.player_to_vote@, i2) == key_at(votes0, i2));
                        } else {
                            assert(key_at(self.player_to_vote@, i2) == p@);
                            assert(self.player_to_vote@[i2].1@ == vote@);
                            if has_key(self.player_to_current_card@, p@) {
                                assert(cands@[pick as int]@ == vote@);
                                assert(vote@ != value_of(self.player_to_current_card@, p@)@);
                            }
                        }
                    }
                    assert forall|x: Seq<char>|
                        #[trigger] has_key(self.player_to_vote@, x) && !has_key(
                            s0.player_to_vote@,
                            x,
                        ) implies (exists|j2: int|
                        0 <= j2 < self.player_to_current_card@.len() && (
                        #[trigger] self.player_to_current_card@[j2]).1@ == value_of(
                            self.player_to_vote@,
                            x,
                        )@) by {
                        if x == p@ {
                            assert(value_of(self.player_to_vote@, x) == vote);
                            assert(cands@[pick as int]@ == vote@);
                            let j2 = choose|j2: int|
                                0 <= j2 < self.player_to_current_card@.len() && (
                                #[trigger] cands@[pick as int])@
                                    == self.player_to_current_card@[j2].1@;
                        } else {
                            assert(has_key(votes0, x));
                            assert(value_of(self.player_to_vote@, x) == value_of(votes0, x));
                        }
                    }
                }
            }
            k = k + 1;
        }
        proof {
            assert forall|x: Seq<char>|
                #[trigger] has_key(s0.players@, x) && x != s0.active_name() implies has_key(
                self.player_to_vote@,
                x,
            ) by {
                assert(str_in(s0.player_order@, x));
                let w = choose|w: int|
                    0 <= w < s0.player_order@.len() && #[trigger] str_at(s0.player_order@, w) == x;
            }
            crate::tbl::lemma_key_subset_len(self.player_to_vote@, self.players@);
        }
        let ghost s1 = *self;
        let point_change = self.compute_results();
        // Apply the changes, saturating at the top of the scale.
        let np = self.players.len();
        let mut i: usize = 0;
        while i < np
            invariant
                i <= np,
                np == self.players@.len(),
                *self == (Room { players: self.players, ..s1 }),
                self.players@.len() == s1.players@.len(),
                unique_keys(point_change@),
                forall|x: Seq<char>|
                    #[trigger] has_key(point_change@, x) == (has_key(s1.player_to_vote@, x) || x
                        == s1.active_name()),
                forall|x: Seq<char>|
                    #[trigger] has_key(point_change@, x) ==> value_of(point_change@, x) as int
                        == s1.spec_point_change(x),
                forall|x: Seq<char>|
                    #[trigger] has_key(s1.players@, x) && x != s1.active_name() ==> has_key(
                        s1.player_to_vote@,
                        x,
                    ),
                unique_keys(s1.players@),
                s1.player_order@.len() > 0,
                s1.active_player < s1.player_order@.len(),
                forall|j: int|
                    0 <= j < i ==> (#[trigger] self.players@[j]) == ((
                    s1.players@[j].0,
                    crate::msgs::PlayerInfo {
                        connected: s1.players@[j].1.connected,
                        points: (if s1.players@[j].1.points + s1.spec_point_change(
                            key_at(s1.players@, j),
                        ) > u16::MAX {
                            u16::MAX as int
                        } else {
                            s1.players@[j].1.points + s1.spec_point_change(key_at(s1.players@, j))
                        }) as u16,
                        ready: s1.players@[j].1.ready,
                    },
                )),
                forall|j: int| i <= j < np ==> self.players@[j] == s1.players@[j],
            decreases np - i,
        {
            let nm = self.players[i].0.clone();
            proof {
                assert(key_at(s1.players@, i as int) == nm@);
                lemma_index_of_key(s1.players@, nm@, i as int);
                assert(has_key(s1.players@, nm@));
                if nm@ != s1.active_name() {
                    assert(has_key(s1.player_to_vote@, nm@));
                }
                assert(has_key(point_change@, nm@));
            }
            let delta = match read_entry(&point_change, nm.as_str()) {
                Some(d) => *d,
                None => {
                    proof {
                        assert(false);
                    }
                    0
                },
            };
            let updated = self.players[i].1.points.saturating_add(delta);
            self.players[i].1.points = updated;
            i = i + 1;
        }
        let ghost s2 = *self;
        self.clear_ready();
        self.stage = RoomStage::Results;
        proof {
            assert(forall|j: int|
                0 <= j < s1.players@.len() ==> #[trigger] key_at(s1.players@, j) == key_at(
                    s2.players@,
                    j,
                ));
            crate::tbl::lemma_same_keys(s1.players@, s2.players@);
            assert(forall|j: int|
                0 <= j < s2.players@.len() ==> #[trigger] key_at(s2.players@, j) == key_at(
                    self.players@,
                    j,
                ));
            crate::tbl::lemma_same_keys(s2.players@, self.players@);
            assert forall|x: Seq<char>| #[trigger] has_key(s0.players@, x) implies value_of(
                self.players@,
                x,
            ) == (crate::msgs::PlayerInfo {
                connected: value_of(s0.players@, x).connected,
                points: (if value_of(s0.players@, x).points + self.spec_point_change(x)
                    > u16::MAX {
                    u16::MAX as int
                } else {
                    value_of(s0.players@, x).points + self.spec_point_change(x)
                }) as u16,
                ready: false,
            }) by {
                lemma_key_index_valid(s0.players@, x);
                let w = index_of_key(s0.players@, x);
                lemma_index_of_key(s0.players@, x, w);
                assert(key_at(s1.players@, w) == x);
                assert(key_at(s2.players@, w) == x);
                lemma_index_of_key(s2.players@, x, w);
                lemma_index_of_key(self.players@, x, w);
                assert(s2.players@[w] == ((
                    s1.players@[w].0,
                    crate::msgs::PlayerInfo {
                        connected: s1.players@[w].1.connected,
                        points: (if s1.players@[w].1.points + s1.spec_point_change(
                            key_at(s1.players@, w),
                        ) > u16::MAX {
                            u16::MAX as int
                        } else {
                            s1.players@[w].1.points + s1.spec_point_change(key_at(s1.players@, w))
                        }) as u16,
                        ready: s1.players@[w].1.ready,
                    },
                )));
                assert(s1.spec_point_change(x) == self.spec_point_change(x));
            }
            assert(self.wf_tables());
            assert forall|i: int| 0 <= i < self.player_order@.len() implies self.is_player(
                #[trigger] str_at(self.player_order@, i),
            ) by {
                assert(s0.is_player(str_at(self.player_order@, i)));
            }
            assert forall|x: Seq<char>| #[trigger] has_key(self.players@, x) implies str_in(
                self.player_order@,
                x,
            ) by {
                assert(has_key(s0.players@, x));
            }
            assert(self.wf_order());
            assert forall|i: int| 0 <= i < self.moderators@.len() implies self.is_member(
                #[trigger] str_at(self.moderators@, i),
            ) by {
                assert(s0.is_member(str_at(self.moderators@, i)));
            }
            assert(self.wf_members());
            assert(self.wf_cards());
            assert(self.wf_submissions());
            assert(self.wf_votes());
            assert(self.wf_generations());
            assert(self.wf_base());
            assert(self.wf_coherent());
        }
        let results_msg = match self.get_msg(None) {
            Some(m) => m,
            None => {
                proof {
                    assert(false);
                }
                ServerMsg::EndGame {  }
            },
        };
        out.push(Outbound::Broadcast(results_msg));
        let state_msg = self.room_state();
        out.push(Outbound::Broadcast(state_msg));
    }

    /// Begin a round: promote waiting observers, pause when fewer than
    /// three players remain, rotate the storyteller, refill and shuffle
    /// the deck, deal every hand up to six cards, and send each player
    /// their hand.  Under a cards-finish win condition an exhausted deck
    /// ends the game; under any other, the room pauses and the call
    /// fails.
    #[verifier::rlimit(100)]
    pub fn init_round(&mut self, out: &mut Vec<Outbound>) -> (r: Result<(), EngineError>)
        requires
            old(self).wf(),
        ensures
            final(self).wf(),
            final(self).players@.len() >= old(self).players@.len(),
            forall|x: Seq<char>|
                final(self).is_player(x) == (old(self).is_player(x) || (old(self).is_observer(x)
                    && crate::membership::should_promote(value_of(old(self).observers@, x)))),
            forall|x: Seq<char>|
                final(self).is_observer(x) == (old(self).is_observer(x)
                    && !crate::membership::should_promote(value_of(old(self).observers@, x))),
            *final(self) == (Room {
                stage: final(self).stage,
                round: final(self).round,
                active_player: final(self).active_player,
                player_order: final(self).player_order,
                players: final(self).players,
                observers: final(self).observers,
                moderators: final(self).moderators,
                player_hand: final(self).player_hand,
                deck: final(self).deck,
                discard_pile: final(self).discard_pile,
                deck_refill_count: final(self).deck_refill_count,
                current_description: final(self).current_description,
                player_to_current_card: final(self).player_to_current_card,
                player_to_vote: final(self).player_to_vote,
                paused_reason: final(self).paused_reason,
                ..*old(self)
            }),
            (old(self).upcoming_players() >= crate::room::MIN_PLAYERS && old(self).deal_pool()
                >= old(self).cards_needed()) ==> (r is Ok && final(self).stage
                == RoomStage::ActiveChooses),
            // Too few players pause the room even when the pool is short.
            old(self).upcoming_players() < crate::room::MIN_PLAYERS ==> (r is Ok && final(self).stage == RoomStage::Paused),
            // A short pool with enough players must end or fail the game.
            (old(self).upcoming_players() >= crate::room::MIN_PLAYERS && old(self).deal_pool()
                < old(self).cards_needed() && old(self).win_condition
                == WinCondition::CardsFinish) ==> (r is Ok && final(self).stage == RoomStage::End),
            (old(self).upcoming_players() >= crate::room::MIN_PLAYERS && old(self).deal_pool()
                < old(self).cards_needed() && old(self).win_condition
                != WinCondition::CardsFinish) ==> r is Err,
            match r {
                Ok(()) => {
                    &&& (final(self).stage == RoomStage::Paused || final(self).stage
                        == RoomStage::End || final(self).stage == RoomStage::ActiveChooses)
                    &&& (final(self).stage == RoomStage::Paused ==> {
                        &&& final(self).players@.len() < crate::room::MIN_PLAYERS
                        &&& final(self).round == old(self).round
                        &&& final(self).player_hand@ == old(self).player_hand@
                        &&& final(self).deck@ == old(self).deck@
                        &&& final(self).discard_pile@ == old(self).discard_pile@
                        &&& (final(self).paused_reason matches Some(re) && re@
                            == "Need at least 3 non-observer players. Ask a player to join."@)
                        &&& final(self).current_description@ == Seq::<char>::empty()
                        &&& crate::room::count_ready(final(self).players@) == 0
                        &&& (forall|x: Seq<char>|
                            old(self).is_player(x) ==> (value_of(final(self).players@, x).points
                                == value_of(old(self).players@, x).points && value_of(
                                final(self).players@,
                                x,
                            ).connected == value_of(old(self).players@, x).connected))
                        &&& final(out)@.len() == old(out)@.len() + 1
                        &&& (final(out)@.last() matches Outbound::Broadcast(m) && final(self).is_room_state_of(m))
                    })
                    &&& (final(self).stage == RoomStage::End ==> (old(self).win_condition
                        == WinCondition::CardsFinish && old(self).deal_pool() < old(self).cards_needed() && final(out)@.len() == old(out)@.len() + 1 && final(out)@.last()
                        == Outbound::Broadcast(ServerMsg::EndGame {  })))
                    &&& (final(self).stage == RoomStage::ActiveChooses ==> {
                        &&& round_started(*old(self), *final(self), old(out)@, final(out)@)
                        &&& final(self).player_to_current_card@.len() == 0
                        &&& final(self).player_to_vote@.len() == 0
                        &&& final(self).paused_reason is None
                        &&& final(out)@.len() == old(out)@.len() + final(self).player_order@.len()
                            + 1
                        &&& ((old(self).round != 0 && old(self).stage != RoomStage::Joining
                            && crate::membership::count_promotable(old(self).observers@) == 0)
                            ==> final(self).active_player as int == (old(self).active_player + 1)
                            % (final(self).player_order@.len() as int))
                    })
                },
                Err(e) => final(self).stage == RoomStage::Paused && e
                    == EngineError::DeckExhausted && old(self).win_condition
                    != WinCondition::CardsFinish && old(self).deal_pool() < old(self).cards_needed() && final(out)@ == old(out)@,
            },
            forall|i: int| 0 <= i < old(out)@.len() ==> final(out)@[i] == old(out)@[i],
            final(out)@.len() >= old(out)@.len(),
    {
        let ghost pool = old(self).deal_pool();
        let ghost need = old(self).cards_needed();
        let promoted = self.promote_requested_observers();
        proof {
            // The promoted table is the old one plus a hand-less player
            // per promoted observer, so the deficit grows by full hands.
            assert forall|i: int|
                old(self).players@.len() <= i < self.players@.len() implies !has_key(
                old(self).player_hand@,
                #[trigger] key_at(self.players@, i),
            ) by {
                assert(has_key(old(self).observers@, key_at(self.players@, i)));
                if has_key(old(self).players@, key_at(self.players@, i)) {
                    assert(false);
                }
            }
            lemma_deficit_append(old(self).players@, self.players@, old(self).player_hand@);
            assert(deal_deficit(self.players@, self.player_hand@) == need);
            assert(self.players@.len() == old(self).upcoming_players());
        }
        let ghost post_promote_players = self.players@;
        let ghost rp = *self;
        if self.non_observer_player_count() < crate::room::MIN_PLAYERS {
            proof {
                assert(old(self).upcoming_players() < crate::room::MIN_PLAYERS);
            }
            self.sync_player_order_with_players();
            self.reset_round_keep_hands();
            self.stage = RoomStage::Paused;
            let reason = self.pause_reason();
            self.paused_reason = Some(reason);
            proof {
                lemma_membership_after_promote(old(self), rp, *self);
                assert forall|i2: int| 0 <= i2 < self.player_order@.len() implies has_key(
                    self.players@,
                    #[trigger] str_at(self.player_order@, i2),
                ) by {
                }
                assert forall|x: Seq<char>| #[trigger] has_key(self.players@, x) implies str_in(
                    self.player_order@,
                    x,
                ) by {
                }
                assert(self.wf_base());
                assert(self.wf_coherent());
            }
            proof {
                assert forall|x: Seq<char>|
                    old(self).is_player(x) implies (value_of(self.players@, x).points == value_of(
                    old(self).players@,
                    x,
                ).points && value_of(self.players@, x).connected == value_of(
                    old(self).players@,
                    x,
                ).connected) by {
                    assert(rp.is_player(x));
                    assert(value_of(rp.players@, x) == value_of(old(self).players@, x));
                    assert(value_of(self.players@, x) == (PlayerInfo {
                        ready: false,
                        ..value_of(rp.players@, x)
                    }));
                }
            }
            let state_msg = self.room_state();
            out.push(Outbound::Broadcast(state_msg));
            return Ok(());
        }
        self.sync_player_order_with_players();
        let ghost mid_players = self.players@;
        proof {
            // Three players or more stand in the freshly synchronized order.
            assert(has_key(self.players@, key_at(self.players@, 0)));
            assert(self.player_order@.len() > 0);
        }
        let is_first = self.round == 0;
        let next_active: usize = if is_first {
            0
        } else {
            (self.active_player + 1) % self.player_order.len()
        };
        self.reset_round_keep_hands();
        self.paused_reason = None;
        let ghost order0 = self.player_order@;
        if is_first {
            crate::sys::shuffle_strings(&mut self.player_order);
            proof {
                crate::cards::lemma_permuted_names(order0, self.player_order@);
            }
        } else {
            self.check_deck();
        }
        proof {
            assert forall|x: Seq<char>| #[trigger] str_in(self.player_order@, x) == str_in(
                order0,
                x,
            ) by {
            }
        }
        crate::sys::shuffle_strings(&mut self.deck);
        proof {
            assert(self.placed_cards() =~= self.base_bag()) by {
                broadcast use vstd::multiset::group_multiset_axioms;

            }
            assert(self.wf_tables());
            assert forall|x: Seq<char>| !(#[trigger] has_key(self.players@, x) && has_key(
                self.observers@,
                x,
            )) by {
            }
            assert forall|i2: int| 0 <= i2 < self.moderators@.len() implies self.is_member(
                #[trigger] str_at(self.moderators@, i2),
            ) by {
            }
            assert(self.wf_members());
            assert(self.wf_generations());
            assert forall|x: Seq<char>| #[trigger] has_key(self.player_hand@, x) implies has_key(
                self.players@,
                x,
            ) by {
            }
            assert forall|i2: int| 0 <= i2 < self.player_order@.len() implies has_key(
                self.players@,
                #[trigger] str_at(self.player_order@, i2),
            ) by {
                let x = str_at(self.player_order@, i2);
                assert(str_in(self.player_order@, x));
                assert(str_in(order0, x));
                let w = choose|w: int|
                    0 <= w < order0.len() && #[trigger] str_at(order0, w) == x;
            }
            assert forall|x: Seq<char>| #[trigger] has_key(self.players@, x) implies str_in(
                self.player_order@,
                x,
            ) by {
                assert(str_in(order0, x));
            }
            assert(self.base_deck@.len() <= u32::MAX);
            // The round artifacts reset only readiness, so the deficit is
            // unchanged, and the refill left exactly the deal pool behind.
            assert(deal_deficit(self.players@, self.player_hand@) == need) by {
                assert forall|i2: int| 0 <= i2 < mid_players.len() implies #[trigger] key_at(
                    mid_players,
                    i2,
                ) == key_at(self.players@, i2) by {
                }
                assert(deal_deficit(mid_players, self.player_hand@) == need);
                lemma_deficit_same_keys(mid_players, self.players@, self.player_hand@);
            }
            assert(self.deck@.len() == pool);
            assert(forall|i2: int|
                0 <= i2 < self.player_hand@.len() ==> (#[trigger] self.player_hand@[i2]).1@.len()
                    <= crate::room::HAND_SIZE);
            lemma_membership_after_promote(old(self), rp, *self);
        }
        // Deal every player up to six cards.
        let ghost sd = *self;
        let np = self.players.len();
        let mut j: usize = 0;
        #[verifier::loop_isolation(false)]
        while j < np
            invariant
                j <= np,
                np == self.players@.len(),
                sd.wf_tables(),
                sd.wf_members(),
                sd.wf_generations(),
                sd.placed_cards() == sd.base_bag(),
                strs_unique(sd.base_deck@),
                sd.base_deck@.len() <= u32::MAX,
                sd.player_to_current_card@.len() == 0,
                sd.player_to_vote@.len() == 0,
                forall|i2: int|
                    0 <= i2 < sd.player_order@.len() ==> has_key(
                        sd.players@,
                        #[trigger] str_at(sd.player_order@, i2),
                    ),
                forall|x: Seq<char>|
                    #[trigger] has_key(sd.players@, x) ==> str_in(sd.player_order@, x),
                sd.player_order@.len() > 0,
                sd.player_order@.len() == 0 ==> sd.active_player == 0,
                sd.player_order@.len() > 0 ==> sd.active_player < sd.player_order@.len(),
                forall|x: Seq<char>|
                    #[trigger] has_key(sd.player_hand@, x) ==> has_key(sd.players@, x),
                *self == (Room { deck: self.deck, player_hand: self.player_hand, ..sd }),
                unique_keys(self.player_hand@),
                self.placed_cards() == sd.placed_cards(),
                forall|x: Seq<char>|
                    #[trigger] has_key(self.player_hand@, x) ==> (has_key(sd.player_hand@, x)
                        || has_key(sd.players@, x)),
                forall|i2: int|
                    0 <= i2 < self.player_hand@.len() ==> (#[trigger] self.player_hand@[i2]).1@.len()
                        <= crate::room::HAND_SIZE,
                forall|j2: int|
                    0 <= j2 < j ==> has_key(
                        self.player_hand@,
                        #[trigger] key_at(sd.players@, j2),
                    ) && value_of(self.player_hand@, key_at(sd.players@, j2))@.len()
                        == crate::room::HAND_SIZE,
                forall|j2: int|
                    j <= j2 < np ==> (has_key(
                        self.player_hand@,
                        #[trigger] key_at(sd.players@, j2),
                    ) == has_key(sd.player_hand@, key_at(sd.players@, j2)) && (has_key(
                        sd.player_hand@,
                        key_at(sd.players@, j2),
                    ) ==> value_of(self.player_hand@, key_at(sd.players@, j2)) == value_of(
                        sd.player_hand@,
                        key_at(sd.players@, j2),
                    ))),
                forall|i2: int|
                    0 <= i2 < sd.player_hand@.len() ==> (#[trigger] sd.player_hand@[i2]).1@.len()
                        <= crate::room::HAND_SIZE,
                sd.deck@.len() == pool,
                deal_deficit(sd.players@, sd.player_hand@) == need,
                self.deck@.len() == sd.deck@.len() - deal_deficit(
                    sd.players@.take(j as int),
                    sd.player_hand@,
                ),
                out@ == old(out)@,
            decreases np - j,
        {
            broadcast use vstd::multiset::group_multiset_axioms, vstd::seq_lib::group_to_multiset_ensures;

            let name = self.players[j].0.clone();
            proof {
                assert(key_at(sd.players@, j as int) == name@);
                assert(has_key(sd.players@, name@));
            }
            let mut h: Vec<String> = match read_entry(&self.player_hand, name.as_str()) {
                Some(v) => crate::tbl::clone_str_list(v),
                None => Vec::new(),
            };
            let ghost hands1 = self.player_hand@;
            let ghost h0 = h@;
            let ghost deck0 = self.deck@;
            proof {
                // This player's hand is as the deal found it, so the cards
                // about to be drawn are exactly its shortfall.
                if has_key(sd.player_hand@, name@) {
                    assert(h0 == value_of(sd.player_hand@, name@)@);
                    lemma_key_index_valid(sd.player_hand@, name@);
                    let idx = index_of_key(sd.player_hand@, name@);
                    lemma_index_of_key(sd.player_hand@, name@, idx);
                    assert(sd.player_hand@[idx].1@.len() <= crate::room::HAND_SIZE);
                }
                assert(slot_need(sd.player_hand@, name@) == crate::room::HAND_SIZE - h0.len());
            }
            #[verifier::loop_isolation(false)]
            while h.len() < crate::room::HAND_SIZE
                invariant
                    out@ == old(out)@,
                    self.deck@.len() + h@.len() == deck0.len() + h0.len(),
                    h@.len() <= crate::room::HAND_SIZE,
                    *self == (Room {
                        deck: self.deck,
                        player_hand: self.player_hand,
                        ..sd
                    }),
                    self.player_hand@ == hands1,
                    unique_keys(self.player_hand@),
                    card_bag(self.deck@).add(card_bag(h@)) =~= card_bag(deck0).add(card_bag(h0)),
                decreases crate::room::HAND_SIZE - h@.len(),
            {
                let ghost dpre = self.deck@;
                match self.deck.pop() {
                    Some(c) => {
                        let ghost hmid = h@;
                        proof {
                            crate::cards::lemma_card_bag_drop_last(dpre);
                            assert(dpre.drop_last() =~= self.deck@);
                            assert(dpre.last() == c);
                            lemma_card_bag_push(hmid, c);
                        }
                        h.push(c);
                        proof {
                            assert forall|cc: Seq<char>|
                                card_bag(self.deck@).add(card_bag(h@)).count(cc) == card_bag(
                                    deck0,
                                ).add(card_bag(h0)).count(cc) by {
                                assert(card_bag(dpre).add(card_bag(hmid)).count(cc) == card_bag(
                                    deck0,
                                ).add(card_bag(h0)).count(cc));
                                assert(card_bag(dpre) == card_bag(self.deck@).insert(c@));
                                assert(card_bag(h@) == card_bag(hmid).insert(c@));
                            }
                            assert(card_bag(self.deck@).add(card_bag(h@)) =~= card_bag(deck0).add(
                                card_bag(h0),
                            ));
                        }
                    },
                    None => {
                        // The deck cannot refill this hand.
                        let ghost hpre = h@;
                        let ghost deck2 = self.deck@;
                        put_entry(&mut self.player_hand, name.as_str(), h);
                        proof {
                            broadcast use vstd::multiset::group_multiset_axioms;

                            if has_key(hands1, name@) {
                                lemma_key_index_valid(hands1, name@);
                                lemma_index_of_key(hands1, name@, index_of_key(hands1, name@));
                            }
                            assert(unique_keys(hands1));
                            assert(card_bag(deck2).add(card_bag(hpre)) =~= card_bag(deck0).add(
                                card_bag(h0),
                            ));
                            if has_key(hands1, name@) {
                                let idx = index_of_key(hands1, name@);
                                assert(self.player_hand@ == hands1.update(
                                    idx,
                                    (hands1[idx].0, self.player_hand@[idx].1),
                                ));
                                assert(self.player_hand@[idx].1@ == hpre);
                                assert(value_of(hands1, name@)@ == h0);
                            } else {
                                assert(self.player_hand@.drop_last() == hands1);
                                assert(self.player_hand@.len() == hands1.len() + 1);
                                assert(self.player_hand@[hands1.len() as int].1@ == hpre);
                                assert(h0 =~= Seq::<String>::empty());
                            }
                            lemma_deal_put(
                                hands1,
                                self.player_hand@,
                                deck0,
                                deck2,
                                name@,
                                h0,
                                hpre,
                            );
                            assert forall|c: Seq<char>|
                                self.placed_cards().count(c) == sd.placed_cards().count(c) by {
                                assert(card_bag(deck2).add(hands_bag(self.player_hand@)).count(c)
                                    == card_bag(deck0).add(hands_bag(hands1)).count(c));
                            }
                            assert(self.placed_cards() =~= sd.placed_cards());
                            lemma_deal_keys(hands1, self.player_hand@, name@, hpre.len() as int);
                        }
                        proof {
                            // The pool ran dry with this hand still short,
                            // so it cannot cover the round's deficit.
                            assert(hpre.len() < crate::room::HAND_SIZE);
                            lemma_deficit_prefix_bound(sd.players@, sd.player_hand@, j as int);
                            lemma_deficit_nonneg(sd.players@, sd.player_hand@);
                            assert(key_at(sd.players@, j as int) == name@);
                            assert(sd.players@.take(np as int) =~= sd.players@);
                            if (j as int) + 1 < np {
                                lemma_deficit_take_le(sd.players@, sd.player_hand@, j + 1);
                            }
                            assert(pool < need);
                        }
                        match self.win_condition {
                            WinCondition::CardsFinish => {
                                self.stage = RoomStage::End;
                                proof {
                                    lemma_post_deal_wf(sd, *self);
                                    assert(self.observers@ == sd.observers@);
                                    assert forall|x: Seq<char>|
                                        self.is_observer(x) == (old(self).is_observer(x)
                                            && !crate::membership::should_promote(
                                            value_of(old(self).observers@, x),
                                        )) && self.is_player(x) == (old(self).is_player(x) || (
                                        old(self).is_observer(x)
                                            && crate::membership::should_promote(
                                            value_of(old(self).observers@, x),
                                        ))) by {
                                        assert(self.is_observer(x) == sd.is_observer(x));
                                        assert(self.is_player(x) == sd.is_player(x));
                                    }
                                }
                                out.push(Outbound::Broadcast(ServerMsg::EndGame {  }));
                                return Ok(());
                            },
                            _ => {
                                self.stage = RoomStage::Paused;
                                let reason = self.pause_reason();
                                self.paused_reason = Some(reason);
                                proof {
                                    lemma_post_deal_wf(sd, *self);
                                    assert(self.observers@ == sd.observers@);
                                    assert forall|x: Seq<char>|
                                        self.is_observer(x) == (old(self).is_observer(x)
                                            && !crate::membership::should_promote(
                                            value_of(old(self).observers@, x),
                                        )) && self.is_player(x) == (old(self).is_player(x) || (
                                        old(self).is_observer(x)
                                            && crate::membership::should_promote(
                                            value_of(old(self).observers@, x),
                                        ))) by {
                                        assert(self.is_observer(x) == sd.is_observer(x));
                                        assert(self.is_player(x) == sd.is_player(x));
                                    }
                                }
                                return Err(EngineError::DeckExhausted);
                            },
                        }
                    },
                }
            }
            let ghost hfull = h@;
            let ghost deck2 = self.deck@;
            put_entry(&mut self.player_hand, name.as_str(), h);
            proof {
                broadcast use vstd::multiset::group_multiset_axioms;

                if has_key(hands1, name@) {
                    lemma_key_index_valid(hands1, name@);
                    lemma_index_of_key(hands1, name@, index_of_key(hands1, name@));
                }
                lemma_deal_put(hands1, self.player_hand@, deck0, deck2, name@, h0, hfull);
                assert forall|c: Seq<char>|
                    self.placed_cards().count(c) == sd.placed_cards().count(c) by {
                    assert(card_bag(deck2).add(hands_bag(self.player_hand@)).count(c)
                        == card_bag(deck0).add(hands_bag(hands1)).count(c));
                }
                assert(self.placed_cards() =~= sd.placed_cards());
                lemma_deal_keys(hands1, self.player_hand@, name@, hfull.len() as int);
                assert(value_of(self.player_hand@, name@)@.len() == crate::room::HAND_SIZE);
                // One full shortfall left the deck for this hand.
                lemma_deficit_prefix_bound(sd.players@, sd.player_hand@, j as int);
                assert(key_at(sd.players@, j as int) == name@);
                assert(self.deck@.len() == sd.deck@.len() - deal_deficit(
                    sd.players@.take(j + 1),
                    sd.player_hand@,
                ));
                assert forall|j2: int| 0 <= j2 <= j implies has_key(
                    self.player_hand@,
                    #[trigger] key_at(sd.players@, j2),
                ) && value_of(self.player_hand@, key_at(sd.players@, j2))@.len()
                    == crate::room::HAND_SIZE by {
                    if j2 < j {
                        let q = key_at(sd.players@, j2);
                        if q != name@ {
                            assert(value_of(self.player_hand@, q) == value_of(hands1, q));
                        }
                    }
                }
            }
            j = j + 1;
        }
        self.round = self.round.saturating_add(1);
        self.active_player = next_active;
        self.stage = RoomStage::ActiveChooses;
        proof {
            assert forall|x: Seq<char>| #[trigger] self.is_player(x) implies has_key(
                self.player_hand@,
                x,
            ) && value_of(self.player_hand@, x)@.len() == crate::room::HAND_SIZE by {
                crate::tbl::lemma_key_index_valid(self.players@, x);
                let w = index_of_key(self.players@, x);
                assert(key_at(sd.players@, w) == x);
            }
            lemma_post_deal_wf(
                Room { active_player: self.active_player, ..sd },
                Room { round: sd.round, ..*self },
            );
            assert(self.observers@ == sd.observers@);
            assert forall|x: Seq<char>|
                self.is_observer(x) == (old(self).is_observer(x)
                    && !crate::membership::should_promote(value_of(old(self).observers@, x)))
                    && self.is_player(x) == (old(self).is_player(x) || (old(self).is_observer(x)
                    && crate::membership::should_promote(value_of(old(self).observers@, x)))) by {
                assert(self.is_observer(x) == sd.is_observer(x));
                assert(self.is_player(x) == sd.is_player(x));
            }
            assert(self.wf_base());
            assert(self.wf_coherent());
        }
        // Every player receives their fresh hand.
        proof {
            // The deal loop ran to completion, so the pool covered the
            // whole deficit.
            assert(sd.players@.take(np as int) =~= sd.players@);
            assert(self.deck@.len() == pool - need);
            assert(pool >= need);
        }
        let ghost outp = out@;
        proof {
            assert(forall|i2: int| 0 <= i2 < old(out)@.len() ==> outp[i2] == old(out)@[i2]);
        }
        let n2 = self.player_order.len();
        let mut k3: usize = 0;
        while k3 < n2
            invariant
                k3 <= n2,
                n2 == self.player_order@.len(),
                self.wf(),
                self.stage == RoomStage::ActiveChooses,
                out@.len() == outp.len() + k3,
                forall|i2: int| 0 <= i2 < outp.len() ==> out@[i2] == outp[i2],
                forall|x: Seq<char>|
                    #[trigger] self.is_player(x) ==> has_key(self.player_hand@, x) && value_of(
                        self.player_hand@,
                        x,
                    )@.len() == crate::room::HAND_SIZE,
                forall|q: int|
                    #![trigger str_at(self.player_order@, q)]
                    0 <= q < k3 ==> (exists|p: int|
                        outp.len() <= p < out@.len() && (#[trigger] out@[p]
                            matches Outbound::Direct { name, msg } && name@ == str_at(
                            self.player_order@,
                            q,
                        ) && (msg matches ServerMsg::StartRound { hand } && hand@ == value_of(
                            self.player_hand@,
                            str_at(self.player_order@, q),
                        )@))),
            decreases n2 - k3,
        {
            let pname = self.player_order[k3].clone();
            proof {
                assert(self.is_player(str_at(self.player_order@, k3 as int)));
                assert(has_key(self.player_hand@, pname@));
            }
            let ghost outb = out@;
            match self.get_msg(Some(pname.as_str())) {
                Some(m) => {
                    out.push(Outbound::Direct { name: pname, msg: m });
                },
                None => {
                    proof {
                        assert(false);
                    }
                },
            }
            proof {
                assert forall|q: int|
                    #![trigger str_at(self.player_order@, q)]
                    0 <= q < k3 + 1 implies (exists|p: int|
                    outp.len() <= p < out@.len() && (#[trigger] out@[p]
                        matches Outbound::Direct { name, msg } && name@ == str_at(
                        self.player_order@,
                        q,
                    ) && (msg matches ServerMsg::StartRound { hand } && hand@ == value_of(
                        self.player_hand@,
                        str_at(self.player_order@, q),
                    )@))) by {
                    if q < k3 {
                        let p0 = choose|p0: int|
                            outp.len() <= p0 < outb.len() && (#[trigger] outb[p0]
                                matches Outbound::Direct { name, msg } && name@ == str_at(
                                self.player_order@,
                                q,
                            ) && (msg matches ServerMsg::StartRound { hand } && hand@ == value_of(
                                self.player_hand@,
                                str_at(self.player_order@, q),
                            )@));
                        assert(out@[p0] == outb[p0]);
                    } else {
                        assert(out@[outb.len() as int] matches Outbound::Direct { name, msg }
                            && name@ == str_at(self.player_order@, q) && (
                        msg matches ServerMsg::StartRound { hand } && hand@ == value_of(
                            self.player_hand@,
                            str_at(self.player_order@, q),
                        )@));
                    }
                }
            }
            k3 = k3 + 1;
        }
        let ghost outv = out@;
        let state_msg = self.room_state();
        out.push(Outbound::Broadcast(state_msg));
        proof {
            assert forall|k: int|
                0 <= k < self.player_order@.len() implies #[trigger] start_round_sent(
                *self,
                old(out)@,
                out@,
                k,
            ) by {
                let p0 = choose|p0: int|
                    outp.len() <= p0 < outv.len() && (#[trigger] outv[p0]
                        matches Outbound::Direct { name, msg } && name@ == str_at(
                        self.player_order@,
                        k,
                    ) && (msg matches ServerMsg::StartRound { hand } && hand@ == value_of(
                        self.player_hand@,
                        str_at(self.player_order@, k),
                    )@));
                assert(out@[p0] == outv[p0]);
                assert(out@[p0] matches Outbound::Direct { name, msg } && name@ == str_at(
                    self.player_order@,
                    k,
                ) && (msg matches ServerMsg::StartRound { hand } && hand@ == value_of(
                    self.player_hand@,
                    str_at(self.player_order@, k),
                )@));
            }
        }
        Ok(())
    }

    /// Restart the running round with the hands as they stand: round
    /// artifacts are dropped, the stage returns to choosing, and every
    /// player is told their hand again.
    pub fn restart_round_keep_hands(&mut self, out: &mut Vec<Outbound>)
        requires
            old(self).wf_base(),
            old(self).players@.len() >= crate::room::MIN_PLAYERS,
            forall|x: Seq<char>|
                #[trigger] has_key(old(self).players@, x) ==> str_in(old(self).player_order@, x),
        ensures
            final(self).wf(),
            final(self).stage == RoomStage::ActiveChooses,
            final(self).round == old(self).round,
            final(self).player_to_current_card@.len() == 0,
            final(self).player_to_vote@.len() == 0,
            final(self).player_hand@ == old(self).player_hand@,
            final(self).player_order@ == old(self).player_order@,
            final(self).active_player == old(self).active_player,
            final(self).observers@ == old(self).observers@,
            forall|x: Seq<char>| #[trigger] final(self).is_player(x) == old(self).is_player(x),
            forall|i: int| 0 <= i < old(out)@.len() ==> final(out)@[i] == old(out)@[i],
            final(out)@.len() > old(out)@.len(),
            (final(out)@.last() matches Outbound::Broadcast(m) && final(self).is_room_state_of(m)),
            // Every player who holds a hand is told it again.
            forall|k: int|
                #![trigger str_at(final(self).player_order@, k)]
                0 <= k < final(self).player_order@.len() && has_key(
                    final(self).player_hand@,
                    str_at(final(self).player_order@, k),
                ) ==> (exists|p: int|
                    old(out)@.len() <= p < final(out)@.len() && (#[trigger] final(out)@[p]
                        matches Outbound::Direct { name, msg } && name@ == str_at(
                        final(self).player_order@,
                        k,
                    ) && (msg matches ServerMsg::StartRound { hand } && hand@ == value_of(
                        final(self).player_hand@,
                        str_at(final(self).player_order@, k),
                    )@))),
    {
        proof {
            if old(self).player_order@.len() == 0 {
                assert(has_key(old(self).players@, key_at(old(self).players@, 0)));
            }
        }
        self.reset_round_keep_hands();
        self.stage = RoomStage::ActiveChooses;
        self.paused_reason = None;
        proof {
            assert(self.wf_base());
            assert(self.wf_coherent());
        }
        let ghost outp = out@;
        let n = self.player_order.len();
        let mut k: usize = 0;
        while k < n
            invariant
                k <= n,
                n == self.player_order@.len(),
                self.wf(),
                self.stage == RoomStage::ActiveChooses,
                out@.len() >= outp.len(),
                forall|i2: int| 0 <= i2 < outp.len() ==> out@[i2] == outp[i2],
                forall|q: int|
                    #![trigger str_at(self.player_order@, q)]
                    0 <= q < k && has_key(self.player_hand@, str_at(self.player_order@, q)) ==> (
                    exists|p: int|
                        outp.len() <= p < out@.len() && (#[trigger] out@[p]
                            matches Outbound::Direct { name, msg } && name@ == str_at(
                            self.player_order@,
                            q,
                        ) && (msg matches ServerMsg::StartRound { hand } && hand@ == value_of(
                            self.player_hand@,
                            str_at(self.player_order@, q),
                        )@))),
            decreases n - k,
        {
            let pname = self.player_order[k].clone();
            let ghost outb = out@;
            match self.get_msg(Some(pname.as_str())) {
                Some(m) => {
                    out.push(Outbound::Direct { name: pname, msg: m });
                },
                None => {
                    proof {
                        assert(!has_key(self.player_hand@, str_at(self.player_order@, k as int)));
                    }
                },
            }
            proof {
                assert forall|q: int|
                    #![trigger str_at(self.player_order@, q)]
                    0 <= q < k + 1 && has_key(
                        self.player_hand@,
                        str_at(self.player_order@, q),
                    ) implies (exists|p: int|
                    outp.len() <= p < out@.len() && (#[trigger] out@[p]
                        matches Outbound::Direct { name, msg } && name@ == str_at(
                        self.player_order@,
                        q,
                    ) && (msg matches ServerMsg::StartRound { hand } && hand@ == value_of(
                        self.player_hand@,
                        str_at(self.player_order@, q),
                    )@))) by {
                    if q < k {
                        let p0 = choose|p0: int|
                            outp.len() <= p0 < outb.len() && (#[trigger] outb[p0]
                                matches Outbound::Direct { name, msg } && name@ == str_at(
                                self.player_order@,
                                q,
                            ) && (msg matches ServerMsg::StartRound { hand } && hand@ == value_of(
                                self.player_hand@,
                                str_at(self.player_order@, q),
                            )@));
                        assert(out@[p0] == outb[p0]);
                    } else {
                        assert(out@[outb.len() as int] matches Outbound::Direct { name, msg }
                            && name@ == str_at(self.player_order@, q) && (
                        msg matches ServerMsg::StartRound { hand } && hand@ == value_of(
                            self.player_hand@,
                            str_at(self.player_order@, q),
                        )@));
                    }
                }
            }
            k = k + 1;
        }
        let ghost outv = out@;
        let state_msg = self.room_state();
        out.push(Outbound::Broadcast(state_msg));
        proof {
            assert forall|q: int|
                #![trigger str_at(self.player_order@, q)]
                0 <= q < self.player_order@.len() && has_key(
                    self.player_hand@,
                    str_at(self.player_order@, q),
                ) implies (exists|p: int|
                old(out)@.len() <= p < out@.len() && (#[trigger] out@[p]
                    matches Outbound::Direct { name, msg } && name@ == str_at(
                    self.player_order@,
                    q,
                ) && (msg matches ServerMsg::StartRound { hand } && hand@ == value_of(
                    self.player_hand@,
                    str_at(self.player_order@, q),
                )@))) by {
                let p0 = choose|p0: int|
                    outp.len() <= p0 < outv.len() && (#[trigger] outv[p0]
                        matches Outbound::Direct { name, msg } && name@ == str_at(
                        self.player_order@,
                        q,
                    ) && (msg matches ServerMsg::StartRound { hand } && hand@ == value_of(
                        self.player_hand@,
                        str_at(self.player_order@, q),
                    )@));
                assert(out@[p0] == outv[p0]);
            }
        }
    }

    /// React to a membership change: pause under three players, restart
    /// the round when the storyteller departed, otherwise advance the
    /// stage when the change completed it, and always end with a fresh
    /// snapshot for everyone.
    #[verifier::rlimit(60)]
    pub fn after_member_removed_or_observered(
        &mut self,
        active_departed: bool,
        out: &mut Vec<Outbound>,
    ) -> (r: Result<(), EngineError>)
        requires
            old(self).wf_base(),
            !active_departed ==> old(self).stage_coherent(),
        ensures
            final(self).wf(),
            forall|i: int| 0 <= i < old(out)@.len() ==> final(out)@[i] == old(out)@[i],
            (old(self).stage == RoomStage::Joining || old(self).stage == RoomStage::End)
                ==> *final(self) == *old(self) && final(out)@.len() == old(out)@.len() + 1 && r is Ok,
            (old(self).stage != RoomStage::Joining && old(self).stage != RoomStage::End && old(self).players@.len() < crate::room::MIN_PLAYERS) ==> (final(self).stage
                == RoomStage::Paused && final(self).round == old(self).round && final(self).paused_reason is Some && final(self).player_hand@ == old(self).player_hand@
                && final(self).player_to_current_card@.len() == 0 && final(self).player_to_vote@.len() == 0 && r is Ok),
            (old(self).stage == RoomStage::Voting && !active_departed && old(self).players@.len()
                >= crate::room::MIN_PLAYERS && old(self).player_to_vote@.len() + 1 >= old(self).players@.len()) ==> (final(self).stage == RoomStage::Results && r is Ok),
            (old(self).stage == RoomStage::PlayersChoose && !active_departed && old(self).players@.len() >= crate::room::MIN_PLAYERS && crate::room::count_ready(old(self).players@)
                + 1 >= old(self).players@.len() && r is Ok) ==> final(self).stage
                == RoomStage::Voting,
            (old(self).round_running() && active_departed && old(self).players@.len()
                >= crate::room::MIN_PLAYERS) ==> (final(self).stage == RoomStage::ActiveChooses
                && final(self).round == old(self).round && final(self).player_hand@ == old(self).player_hand@ && final(self).active_player == 0 && final(self).player_to_current_card@.len() == 0 && final(self).player_to_vote@.len() == 0 && r is Ok && (forall|k: int|
                #![trigger str_at(final(self).player_order@, k)]
                0 <= k < final(self).player_order@.len() && has_key(
                    final(self).player_hand@,
                    str_at(final(self).player_order@, k),
                ) ==> (exists|p: int|
                    old(out)@.len() <= p < final(out)@.len() && (#[trigger] final(out)@[p]
                        matches Outbound::Direct { name, msg } && name@ == str_at(
                        final(self).player_order@,
                        k,
                    ) && (msg matches ServerMsg::StartRound { hand } && hand@ == value_of(
                        final(self).player_hand@,
                        str_at(final(self).player_order@, k),
                    )@))))),
            (old(self).stage == RoomStage::Results && !active_departed && old(self).players@.len()
                >= crate::room::MIN_PLAYERS && old(self).spec_should_end()) ==> final(self).stage
                == RoomStage::End,
            ((old(self).stage == RoomStage::Paused && old(self).players@.len()
                >= crate::room::MIN_PLAYERS) || (old(self).stage == RoomStage::ActiveChooses
                && !active_departed && old(self).players@.len() >= crate::room::MIN_PLAYERS) || (
            old(self).stage == RoomStage::PlayersChoose && !active_departed && old(self).players@.len() >= crate::room::MIN_PLAYERS && crate::room::count_ready(old(self).players@)
                + 1 < old(self).players@.len()) || (old(self).stage == RoomStage::Voting
                && !active_departed && old(self).players@.len() >= crate::room::MIN_PLAYERS && old(self).player_to_vote@.len() + 1 < old(self).players@.len()) || (old(self).stage
                == RoomStage::Results && !active_departed && old(self).players@.len()
                >= crate::room::MIN_PLAYERS && !old(self).spec_should_end() && !crate::room::all_ready(old(self).players@))) ==> (*final(self) == *old(self) && final(out)@.len() == old(
                out,
            )@.len() + 1 && r is Ok),
            final(out)@.len() > old(out)@.len() ==> (final(out)@.last() matches Outbound::Broadcast(_)),
            old(self).stage != RoomStage::Results ==> (forall|x: Seq<char>|
                final(self).is_player(x) == old(self).is_player(x) && final(self).is_observer(x)
                    == old(self).is_observer(x)),
            forall|x: Seq<char>| !old(self).is_member(x) ==> !final(self).is_member(x),
            final(out)@.len() >= old(out)@.len(),
    {
        match self.stage {
            RoomStage::Joining => {
                let state_msg = self.room_state();
                out.push(Outbound::Broadcast(state_msg));
                return Ok(());
            },
            RoomStage::End => {
                let state_msg = self.room_state();
                out.push(Outbound::Broadcast(state_msg));
                return Ok(());
            },
            _ => {
            },
        }
        if self.maybe_pause_for_low_player_count(out) {
            return Ok(());
        }
        proof {
            // With players present past the lobby stage, the order covers
            // them, so it cannot be empty.
            if self.stage != RoomStage::Joining && self.players@.len() > 0 {
                assert(has_key(self.players@, key_at(self.players@, 0)));
                assert(str_in(self.player_order@, key_at(self.players@, 0)));
            }
        }
        match self.stage {
            RoomStage::Paused => {
                proof {
                    assert(self.wf_coherent());
                }
                let state_msg = self.room_state();
                out.push(Outbound::Broadcast(state_msg));
                Ok(())
            },
            RoomStage::ActiveChooses => {
                if active_departed || self.player_order.len() == 0 {
                    self.sync_player_order_with_players();
                    self.active_player = 0;
                    self.restart_round_keep_hands(out);
                } else {
                    proof {
                        assert(self.wf_coherent());
                    }
                    let state_msg = self.room_state();
                    out.push(Outbound::Broadcast(state_msg));
                }
                Ok(())
            },
            RoomStage::PlayersChoose => {
                if active_departed || self.player_order.len() == 0 {
                    self.sync_player_order_with_players();
                    self.active_player = 0;
                    self.restart_round_keep_hands(out);
                    return Ok(());
                }
                proof {
                    assert(self.wf_coherent());
                }
                proof {
                    crate::room::lemma_count_ready_bounds(self.players@);
                }
                let ready = self.ready_count();
                if ready >= self.players.len() - 1 {
                    match self.init_voting(out) {
                        Ok(()) => Ok(()),
                        Err(e) => Err(e),
                    }
                } else {
                    let state_msg = self.room_state();
                    out.push(Outbound::Broadcast(state_msg));
                    Ok(())
                }
            },
            RoomStage::Voting => {
                if active_departed || self.player_order.len() == 0 {
                    self.sync_player_order_with_players();
                    self.active_player = 0;
                    self.restart_round_keep_hands(out);
                    return Ok(());
                }
                proof {
                    assert(self.wf_coherent());
                }
                if self.player_to_vote.len() >= self.players.len() - 1 {
                    self.init_results(out);
                } else {
                    let state_msg = self.room_state();
                    out.push(Outbound::Broadcast(state_msg));
                }
                Ok(())
            },
            RoomStage::Results => {
                if active_departed {
                    self.sync_player_order_with_players();
                    self.active_player = 0;
                    self.restart_round_keep_hands(out);
                    return Ok(());
                }
                proof {
                    assert(self.wf_coherent());
                }
                if self.should_end_game() {
                    self.stage = RoomStage::End;
                    self.paused_reason = None;
                    proof {
                        assert(self.wf_base());
                        assert(self.wf_coherent());
                    }
                    out.push(Outbound::Broadcast(ServerMsg::EndGame {  }));
                    let state_msg = self.room_state();
                    out.push(Outbound::Broadcast(state_msg));
                    return Ok(());
                }
                if self.players_all_ready() {
                    match self.init_round(out) {
                        Ok(()) => Ok(()),
                        Err(e) => Err(e),
                    }
                } else {
                    let state_msg = self.room_state();
                    out.push(Outbound::Broadcast(state_msg));
                    Ok(())
                }
            },
            RoomStage::Joining => {
                proof {
                    assert(false);
                }
                Ok(())
            },
            RoomStage::End => {
                proof {
                    assert(false);
                }
                Ok(())
            },
        }
    }
}

/// Writing one dealt hand back preserves the card account: the cards
/// that left the deck are exactly those appended to that hand.
proof fn lemma_deal_put(
    hands1: Seq<(String, Vec<String>)>,
    hands2: Seq<(String, Vec<String>)>,
    deck0: Seq<String>,
    deck2: Seq<String>,
    name: Seq<char>,
    h0: Seq<String>,
    hfull: Seq<String>,
)
    requires
        unique_keys(hands1),
        card_bag(deck2).add(card_bag(hfull)) =~= card_bag(deck0).add(card_bag(h0)),
        has_key(hands1, name) ==> {
            &&& hands2 == hands1.update(
                index_of_key(hands1, name),
                (hands1[index_of_key(hands1, name)].0, hands2[index_of_key(hands1, name)].1),
            )
            &&& hands2[index_of_key(hands1, name)].1@ == hfull
            &&& value_of(hands1, name)@ == h0
        },
        !has_key(hands1, name) ==> {
            &&& hands2.drop_last() == hands1
            &&& hands2.len() == hands1.len() + 1
            &&& hands2[hands1.len() as int].1@ == hfull
            &&& h0 =~= Seq::<String>::empty()
        },
    ensures
        forall|c: Seq<char>|
            #[trigger] card_bag(deck2).add(hands_bag(hands2)).count(c) == card_bag(deck0).add(
                hands_bag(hands1),
            ).count(c),
{
    broadcast use vstd::multiset::group_multiset_axioms, vstd::seq_lib::group_to_multiset_ensures;

    if has_key(hands1, name) {
        lemma_key_index_valid(hands1, name);
        let idx = index_of_key(hands1, name);
        lemma_index_of_key(hands1, name, idx);
        lemma_hands_bag_update(hands1, idx, hands2[idx]);
        assert(hands1.update(idx, hands2[idx]) =~= hands2);
        assert forall|c: Seq<char>|
            #[trigger] card_bag(deck2).add(hands_bag(hands2)).count(c) == card_bag(deck0).add(
                hands_bag(hands1),
            ).count(c) by {
            assert(hands_bag(hands2).add(card_bag(hands1[idx].1@)).count(c) == hands_bag(
                hands1,
            ).add(card_bag(hands2[idx].1@)).count(c));
            assert(card_bag(deck2).add(card_bag(hfull)).count(c) == card_bag(deck0).add(
                card_bag(h0),
            ).count(c));
        }
    } else {
        assert(card_bag(h0) =~= vstd::multiset::Multiset::<Seq<char>>::empty()) by {
            assert(crate::names::strs_of(h0) =~= Seq::<Seq<char>>::empty());
            assert(Seq::<Seq<char>>::empty().to_multiset() =~= vstd::multiset::Multiset::<
                Seq<char>,
            >::empty());
        }
        assert(hands_bag(hands2) == hands_bag(hands1).add(card_bag(hfull))) by {
            assert(hands2.last() == hands2[hands1.len() as int]);
        }
        assert forall|c: Seq<char>|
            #[trigger] card_bag(deck2).add(hands_bag(hands2)).count(c) == card_bag(deck0).add(
                hands_bag(hands1),
            ).count(c) by {
            assert(card_bag(deck2).add(card_bag(hfull)).count(c) == card_bag(deck0).add(
                card_bag(h0),
            ).count(c));
        }
    }
}

/// The deal only moves cards between the deck and the hands: every other
/// part of the invariant carries over from the pre-deal state, whose turn
/// order was freshly synchronized and whose round artifacts were cleared.
proof fn lemma_post_deal_wf(sd: Room, cur: Room)
    requires
        sd.wf_tables(),
        sd.wf_members(),
        sd.wf_generations(),
        sd.placed_cards() == sd.base_bag(),
        strs_unique(sd.base_deck@),
        sd.base_deck@.len() <= u32::MAX,
        sd.player_to_current_card@.len() == 0,
        sd.player_to_vote@.len() == 0,
        forall|i2: int|
            0 <= i2 < sd.player_order@.len() ==> has_key(
                sd.players@,
                #[trigger] str_at(sd.player_order@, i2),
            ),
        forall|x: Seq<char>| #[trigger] has_key(sd.players@, x) ==> str_in(sd.player_order@, x),
        sd.player_order@.len() == 0 ==> sd.active_player == 0,
        sd.player_order@.len() > 0 ==> sd.active_player < sd.player_order@.len(),
        forall|x: Seq<char>| #[trigger] has_key(sd.player_hand@, x) ==> has_key(sd.players@, x),
        cur == (Room {
            deck: cur.deck,
            player_hand: cur.player_hand,
            stage: cur.stage,
            paused_reason: cur.paused_reason,
            round: cur.round,
            ..sd
        }),
        unique_keys(cur.player_hand@),
        cur.placed_cards() == sd.placed_cards(),
        forall|x: Seq<char>|
            #[trigger] has_key(cur.player_hand@, x) ==> (has_key(sd.player_hand@, x) || has_key(
                sd.players@,
                x,
            )),
        forall|i2: int|
            0 <= i2 < cur.player_hand@.len() ==> (#[trigger] cur.player_hand@[i2]).1@.len()
                <= crate::room::HAND_SIZE,
        cur.stage == RoomStage::End || cur.stage == RoomStage::Paused || (cur.stage
            == RoomStage::ActiveChooses && cur.players@.len() >= crate::room::MIN_PLAYERS),
    ensures
        cur.wf_base(),
        cur.wf_coherent(),
{
    assert(cur.wf_tables());
    assert(cur.wf_members());
    assert(cur.wf_order());
    assert forall|x: Seq<char>| #[trigger] has_key(cur.player_hand@, x) implies cur.is_player(
        x,
    ) by {
        assert(has_key(sd.player_hand@, x) || has_key(sd.players@, x));
        assert(has_key(sd.players@, x));
        assert(cur.players == sd.players);
    }
    assert(cur.placed_cards() == cur.base_bag());
    assert(cur.wf_cards());
    assert(cur.wf_submissions());
    assert(cur.wf_votes());
    assert(cur.wf_generations());
    assert(cur.wf_coherent());
}

/// After writing one hand back, the table's keys grew by at most that
/// name and every hand still respects the bound it respected before.
proof fn lemma_deal_keys(
    hands1: Seq<(String, Vec<String>)>,
    hands2: Seq<(String, Vec<String>)>,
    name: Seq<char>,
    newlen: int,
)
    requires
        unique_keys(hands1),
        unique_keys(hands2),
        has_key(hands2, name),
        value_of(hands2, name)@.len() == newlen,
        forall|x: Seq<char>| x != name ==> #[trigger] has_key(hands2, x) == has_key(hands1, x),
        forall|x: Seq<char>|
            x != name && has_key(hands1, x) ==> value_of(hands2, x) == value_of(hands1, x),
        forall|i2: int|
            0 <= i2 < hands1.len() ==> (#[trigger] hands1[i2]).1@.len() <= crate::room::HAND_SIZE,
        newlen <= crate::room::HAND_SIZE,
    ensures
        forall|i2: int|
            0 <= i2 < hands2.len() ==> (#[trigger] hands2[i2]).1@.len() <= crate::room::HAND_SIZE,
{
    assert forall|i2: int| 0 <= i2 < hands2.len() implies (#[trigger] hands2[i2]).1@.len()
        <= crate::room::HAND_SIZE by {
        let x = key_at(hands2, i2);
        lemma_index_of_key(hands2, x, i2);
        assert(has_key(hands2, x));
        if x == name {
            assert(hands2[i2].1 == value_of(hands2, name));
        } else {
            assert(has_key(hands1, x));
            lemma_key_index_valid(hands1, x);
            let w = index_of_key(hands1, x);
            lemma_index_of_key(hands1, x, w);
            assert(hands2[i2].1 == value_of(hands1, x));
            assert(hands1[w].1 == value_of(hands1, x));
        }
    }
}

} // verus!
