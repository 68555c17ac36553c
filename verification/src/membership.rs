//! Membership changes: leaving, kicks, demotion to observer, and the
//! promotion of observers into the next round.  Cards of a departing
//! player flow to the discard pile, the turn order contracts around the
//! active index, and every name-keyed table drops the entry.

use vstd::prelude::*;
use vstd::multiset::Multiset;
use crate::cards::{card_bag, hands_bag, lemma_card_bag_concat, lemma_hands_bag_remove};
use crate::msgs::{ObserverInfo, Outbound, PlayerInfo, RoomStage, ServerMsg};
use crate::names::{str_at, str_in, strs_unique, remove_str, insert_str, find_str,
    lemma_strs_remove_idx};
use crate::room::Room;
use crate::tbl::{
    has_key, key_at, unique_keys, value_of, index_of_key, remove_entry, has_entry, read_entry, put_entry,
    lemma_index_of_key, lemma_key_index_valid,
};

verus! {

impl Room {
    /// Detach a player from the game: hand to the discard pile, entries
    /// out of the submissions, the votes, the turn order and the player
    /// table.  Moderator status and identity bindings are left to the
    /// callers.
    pub(crate) fn remove_player_core(&mut self, player_name: &str)
        requires
            old(self).wf_base(),
            old(self).is_player(player_name@),
        ensures
            *final(self) == (Room {
                players: final(self).players,
                player_hand: final(self).player_hand,
                player_order: final(self).player_order,
                active_player: final(self).active_player,
                discard_pile: final(self).discard_pile,
                player_to_current_card: final(self).player_to_current_card,
                player_to_vote: final(self).player_to_vote,
                ..*old(self)
            }),
            final(self).wf_tables(),
            final(self).wf_order(),
            final(self).wf_cards(),
            final(self).wf_submissions(),
            final(self).wf_votes(),
            final(self).wf_generations(),
            !final(self).is_player(player_name@),
            forall|x: Seq<char>|
                x != player_name@ ==> final(self).is_player(x) == old(self).is_player(x),
            forall|x: Seq<char>|
                x != player_name@ && old(self).is_player(x) ==> value_of(final(self).players@, x)
                    == value_of(old(self).players@, x),
            final(self).players@.len() + 1 == old(self).players@.len(),
            !has_key(final(self).player_hand@, player_name@),
            !has_key(final(self).player_to_current_card@, player_name@),
            forall|x: Seq<char>|
                x != player_name@ ==> has_key(final(self).player_to_current_card@, x) == has_key(
                    old(self).player_to_current_card@,
                    x,
                ),
            forall|x: Seq<char>|
                x != player_name@ && has_key(old(self).player_to_current_card@, x) ==> value_of(
                    final(self).player_to_current_card@,
                    x,
                ) == value_of(old(self).player_to_current_card@, x),
            !has_key(final(self).player_to_vote@, player_name@),
            forall|x: Seq<char>|
                x != player_name@ ==> has_key(final(self).player_to_vote@, x) == has_key(
                    old(self).player_to_vote@,
                    x,
                ),
            forall|x: Seq<char>|
                x != player_name@ && has_key(old(self).player_to_vote@, x) ==> value_of(
                    final(self).player_to_vote@,
                    x,
                ) == value_of(old(self).player_to_vote@, x),
            !str_in(final(self).player_order@, player_name@),
            forall|x: Seq<char>|
                x != player_name@ ==> str_in(final(self).player_order@, x) == str_in(
                    old(self).player_order@,
                    x,
                ),
            final(self).placed_cards() == old(self).placed_cards(),
            forall|c: Seq<char>|
                str_in(old(self).discard_pile@, c) ==> str_in(final(self).discard_pile@, c),
            (old(self).player_order@.len() > 0 && old(self).active_name() != player_name@) ==> (
            final(self).player_order@.len() > 0 && final(self).active_name() == old(self).active_name()),
            final(self).player_order@.len() == old(self).player_order@.len() - (if str_in(
                old(self).player_order@,
                player_name@,
            ) {
                1int
            } else {
                0int
            }),
            has_key(old(self).player_hand@, player_name@) ==> final(self).discard_pile@ == old(self).discard_pile@ + value_of(old(self).player_hand@, player_name@)@,
            !has_key(old(self).player_hand@, player_name@) ==> final(self).discard_pile@ == old(self).discard_pile@,
            forall|x: Seq<char>|
                x != player_name@ ==> has_key(final(self).player_hand@, x) == has_key(
                    old(self).player_hand@,
                    x,
                ),
            forall|x: Seq<char>|
                x != player_name@ && has_key(old(self).player_hand@, x) ==> value_of(
                    final(self).player_hand@,
                    x,
                ) == value_of(old(self).player_hand@, x),
            str_in(old(self).player_order@, player_name@) ==> (exists|i: int|
                {
                    &&& 0 <= i < old(self).player_order@.len()
                    &&& #[trigger] str_at(old(self).player_order@, i) == player_name@
                    &&& final(self).player_order@ == old(self).player_order@.remove(i)
                    &&& final(self).active_player as int == (if ({
                        let shifted: int = if i < old(self).active_player {
                            old(self).active_player - 1
                        } else {
                            old(self).active_player as int
                        };
                        shifted >= final(self).player_order@.len()
                    }) {
                        0int
                    } else {
                        if i < old(self).active_player {
                            old(self).active_player - 1
                        } else {
                            old(self).active_player as int
                        }
                    })
                }),
            !str_in(old(self).player_order@, player_name@) ==> final(self).player_order@ == old(self).player_order@ && final(self).active_player == old(self).active_player,
    {
        broadcast use vstd::multiset::group_multiset_axioms, vstd::seq_lib::group_to_multiset_ensures;

        let ghost s0 = *self;
        // Hand cards move to the discard pile.
        match remove_entry(&mut self.player_hand, player_name) {
            Some(h) => {
                let mut hand = h;
                let ghost hseq = hand@;
                proof {
                    lemma_key_index_valid(s0.player_hand@, player_name@);
                    let idx = index_of_key(s0.player_hand@, player_name@);
                    lemma_index_of_key(s0.player_hand@, player_name@, idx);
                    lemma_hands_bag_remove(s0.player_hand@, idx);
                }
                self.discard_pile.append(&mut hand);
                proof {
                    lemma_card_bag_concat(s0.discard_pile@, hseq);
                    let idx = index_of_key(s0.player_hand@, player_name@);
                    assert forall|c: Seq<char>|
                        self.placed_cards().count(c) == s0.placed_cards().count(c) by {
                        assert(hands_bag(self.player_hand@).add(
                            card_bag(s0.player_hand@[idx].1@),
                        ).count(c) == hands_bag(s0.player_hand@).count(c));
                    }
                    assert(self.placed_cards() =~= s0.placed_cards());
                    assert forall|c: Seq<char>|
                        str_in(s0.discard_pile@, c) implies str_in(self.discard_pile@, c) by {
                        let w = choose|w: int|
                            0 <= w < s0.discard_pile@.len() && #[trigger] str_at(
                                s0.discard_pile@,
                                w,
                            ) == c;
                        assert(str_at(self.discard_pile@, w) == c);
                    }
                }
            },
            None => {
            },
        }
        let ghost s1 = *self;
        // The submission entry goes; its card already sits in the hand
        // just discarded or on the discard pile, so nothing else moves.
        remove_entry(&mut self.player_to_current_card, player_name);
        let ghost s2 = *self;
        remove_entry(&mut self.player_to_vote, player_name);
        let ghost s3 = *self;
        // Contract the turn order around the active index.
        match find_str(&self.player_order, player_name) {
            Some(pos) => {
                proof {
                    lemma_strs_remove_idx(s3.player_order@, pos as int);
                }
                self.player_order.remove(pos);
                if pos < self.active_player && self.active_player > 0 {
                    self.active_player = self.active_player - 1;
                }
                if self.active_player >= self.player_order.len() {
                    self.active_player = 0;
                }
                proof {
                    assert(str_at(s0.player_order@, pos as int) == player_name@);
                    assert(self.player_order@ == s0.player_order@.remove(pos as int));
                    if s0.player_order@.len() > 0 && s0.active_name() != player_name@ {
                        assert(pos != s0.active_player);
                        if (pos as int) < s0.active_player {
                            assert(self.active_player == s0.active_player - 1);
                            assert(str_at(self.player_order@, self.active_player as int)
                                == str_at(s0.player_order@, s0.active_player as int));
                        } else {
                            assert(self.active_player == s0.active_player);
                            assert(str_at(self.player_order@, self.active_player as int)
                                == str_at(s0.player_order@, s0.active_player as int));
                        }
                    }
                }
            },
            None => {
            },
        }
        let ghost s4 = *self;
        remove_entry(&mut self.players, player_name);
        proof {
            let fs = *self;
            // Keys removed everywhere; other entries untouched.
            assert(fs.placed_cards() == s0.placed_cards());
            // Turn order: entries are still players, coverage survives.
            assert forall|i: int| 0 <= i < fs.player_order@.len() implies fs.is_player(
                #[trigger] str_at(fs.player_order@, i),
            ) by {
                assert(str_in(fs.player_order@, str_at(fs.player_order@, i)));
                assert(str_at(fs.player_order@, i) != player_name@);
                assert(str_in(s0.player_order@, str_at(fs.player_order@, i)));
                let w = choose|w: int|
                    0 <= w < s0.player_order@.len() && #[trigger] str_at(s0.player_order@, w)
                        == str_at(fs.player_order@, i);
                assert(s0.is_player(str_at(fs.player_order@, i)));
            }
            if fs.stage != RoomStage::Joining {
                assert forall|x: Seq<char>| #[trigger] has_key(fs.players@, x) implies str_in(
                    fs.player_order@,
                    x,
                ) by {
                    assert(x != player_name@);
                    assert(has_key(s0.players@, x));
                    assert(str_in(s0.player_order@, x));
                }
            }
            // Hands belong to players and keep their six-card bound.
            assert forall|x: Seq<char>| #[trigger] has_key(fs.player_hand@, x) implies
                fs.is_player(x) by {
                assert(x != player_name@ || !has_key(fs.player_hand@, player_name@));
                assert(has_key(s0.player_hand@, x));
            }
            assert forall|i: int| 0 <= i < fs.player_hand@.len() implies (
            #[trigger] fs.player_hand@[i]).1@.len() <= crate::room::HAND_SIZE by {
                if has_key(s0.player_hand@, player_name@) {
                    let idx = index_of_key(s0.player_hand@, player_name@);
                    assert(fs.player_hand@ == s0.player_hand@.remove(idx));
                    let oi = if i < idx {
                        i
                    } else {
                        i + 1
                    };
                    assert(fs.player_hand@[i] == s0.player_hand@[oi]);
                } else {
                    assert(fs.player_hand@ == s0.player_hand@);
                }
            }
            // Submissions: distinct cards, player-owned, staged correctly.
            lemma_cur_after_remove(s0.player_to_current_card@, fs.player_to_current_card@);
            assert forall|x: Seq<char>| #[trigger] has_key(fs.player_to_current_card@, x) implies
                fs.is_player(x) by {
                assert(x != player_name@);
                assert(has_key(s0.player_to_current_card@, x));
            }
            if fs.stage == RoomStage::PlayersChoose {
                assert forall|i: int| 0 <= i < fs.player_to_current_card@.len() implies has_key(
                    fs.player_hand@,
                    #[trigger] key_at(fs.player_to_current_card@, i),
                ) && str_in(
                    value_of(fs.player_hand@, key_at(fs.player_to_current_card@, i))@,
                    fs.player_to_current_card@[i].1@,
                ) by {
                    let p = key_at(fs.player_to_current_card@, i);
                    assert(has_key(fs.player_to_current_card@, p)) by {
                        assert(key_at(fs.player_to_current_card@, i) == p);
                    }
                    assert(p != player_name@);
                    assert(has_key(s0.player_to_current_card@, p));
                    assert(value_of(fs.player_to_current_card@, p) == value_of(
                        s0.player_to_current_card@,
                        p,
                    ));
                    lemma_key_index_valid(s0.player_to_current_card@, p);
                    let oi = index_of_key(s0.player_to_current_card@, p);
                    assert(s0.player_to_current_card@[oi].1 == value_of(
                        s0.player_to_current_card@,
                        p,
                    ));
                    lemma_index_of_key(fs.player_to_current_card@, p, i);
                    assert(fs.player_to_current_card@[i].1 == value_of(
                        fs.player_to_current_card@,
                        p,
                    ));
                    assert(has_key(s0.player_hand@, p) && str_in(
                        value_of(s0.player_hand@, p)@,
                        s0.player_to_current_card@[oi].1@,
                    ));
                    assert(value_of(fs.player_hand@, p) == value_of(s0.player_hand@, p));
                }
            }
            if fs.stage == RoomStage::Voting || fs.stage == RoomStage::Results || fs.stage
                == RoomStage::End {
                assert forall|i: int| 0 <= i < fs.player_to_current_card@.len() implies str_in(
                    fs.discard_pile@,
                    (#[trigger] fs.player_to_current_card@[i]).1@,
                ) by {
                    let p = key_at(fs.player_to_current_card@, i);
                    assert(has_key(fs.player_to_current_card@, p)) by {
                        assert(key_at(fs.player_to_current_card@, i) == p);
                    }
                    assert(p != player_name@);
                    assert(has_key(s0.player_to_current_card@, p));
                    lemma_key_index_valid(s0.player_to_current_card@, p);
                    let oi = index_of_key(s0.player_to_current_card@, p);
                    lemma_index_of_key(fs.player_to_current_card@, p, i);
                    assert(fs.player_to_current_card@[i].1 == value_of(
                        fs.player_to_current_card@,
                        p,
                    ));
                    assert(value_of(fs.player_to_current_card@, p) == value_of(
                        s0.player_to_current_card@,
                        p,
                    ));
                    assert(str_in(s0.discard_pile@, s0.player_to_current_card@[oi].1@));
                }
            }
            // Votes: player-owned, never for one's own submission.
            assert forall|x: Seq<char>| #[trigger] has_key(fs.player_to_vote@, x) implies
                fs.is_player(x) by {
                assert(x != player_name@);
                assert(has_key(s0.player_to_vote@, x));
            }
            assert forall|i: int| 0 <= i < fs.player_to_vote@.len() implies (has_key(
                fs.player_to_current_card@,
                #[trigger] key_at(fs.player_to_vote@, i),
            ) ==> fs.player_to_vote@[i].1@ != value_of(
                fs.player_to_current_card@,
                key_at(fs.player_to_vote@, i),
            )@) by {
                let p = key_at(fs.player_to_vote@, i);
                assert(has_key(fs.player_to_vote@, p)) by {
                    assert(key_at(fs.player_to_vote@, i) == p);
                }
                assert(p != player_name@);
                if has_key(fs.player_to_current_card@, p) {
                    assert(has_key(s0.player_to_current_card@, p));
                    assert(value_of(fs.player_to_current_card@, p) == value_of(
                        s0.player_to_current_card@,
                        p,
                    ));
                    assert(has_key(s0.player_to_vote@, p));
                    lemma_key_index_valid(s0.player_to_vote@, p);
                    let oi = index_of_key(s0.player_to_vote@, p);
                    lemma_index_of_key(fs.player_to_vote@, p, i);
                    assert(fs.player_to_vote@[i].1 == value_of(fs.player_to_vote@, p));
                    assert(value_of(fs.player_to_vote@, p) == value_of(s0.player_to_vote@, p));
                    assert(s0.player_to_vote@[oi].1 == value_of(s0.player_to_vote@, p));
                }
            }
        }
    }
}

/// An observer asked to play, or was parked here automatically and joins
/// the next round by default.
pub open spec fn should_promote(o: ObserverInfo) -> bool {
    o.auto_join_on_next_round || o.join_requested
}

/// How many observers are due for promotion.
pub open spec fn count_promotable(s: Seq<(String, ObserverInfo)>) -> int
    decreases s.len(),
{
    if s.len() == 0 {
        0
    } else {
        count_promotable(s.drop_last()) + if should_promote(s.last().1) {
            1int
        } else {
            0int
        }
    }
}

pub proof fn lemma_count_promotable_nonneg(s: Seq<(String, ObserverInfo)>)
    ensures
        count_promotable(s) >= 0,
    decreases s.len(),
{
    if s.len() > 0 {
        lemma_count_promotable_nonneg(s.drop_last());
    }
}

/// Every collected name is the key of some observer entry below `bound`.
spec fn sourced_from(obs: Seq<(String, ObserverInfo)>, tp: Seq<String>, bound: int) -> bool {
    forall|k: int| #![trigger str_at(tp, k)]
        0 <= k < tp.len() ==> has_key(obs.take(bound), str_at(tp, k))
}

proof fn lemma_sourced_widen(
    obs: Seq<(String, ObserverInfo)>,
    tp: Seq<String>,
    b1: int,
    b2: int,
)
    requires
        sourced_from(obs, tp, b1),
        0 <= b1 <= b2 <= obs.len(),
    ensures
        sourced_from(obs, tp, b2),
{
    assert forall|k: int| #![trigger str_at(tp, k)] 0 <= k < tp.len() implies has_key(
        obs.take(b2),
        str_at(tp, k),
    ) by {
        assert(has_key(obs.take(b1), str_at(tp, k)));
        let j = choose|j: int|
            0 <= j < obs.take(b1).len() && #[trigger] key_at(obs.take(b1), j) == str_at(tp, k);
        assert(obs.take(b2)[j] == obs.take(b1)[j]);
        assert(key_at(obs.take(b2), j) == str_at(tp, k));
    }
}

proof fn lemma_sourced_push(
    obs: Seq<(String, ObserverInfo)>,
    tp: Seq<String>,
    b: int,
    b2: int,
    e: String,
    src: int,
)
    requires
        sourced_from(obs, tp, b),
        0 <= b <= b2 <= obs.len(),
        0 <= src < b2,
        key_at(obs, src) == e@,
    ensures
        sourced_from(obs, tp.push(e), b2),
{
    lemma_sourced_widen(obs, tp, b, b2);
    assert forall|k: int| #![trigger str_at(tp.push(e), k)] 0 <= k < tp.push(e).len() implies
        has_key(obs.take(b2), str_at(tp.push(e), k)) by {
        if k < tp.len() {
            assert(str_at(tp.push(e), k) == str_at(tp, k));
            assert(has_key(obs.take(b2), str_at(tp, k)));
        } else {
            assert(str_at(tp.push(e), k) == e@);
            assert(obs.take(b2)[src] == obs[src]);
            assert(key_at(obs.take(b2), src) == e@);
        }
    }
}

proof fn lemma_sourced_fresh(obs: Seq<(String, ObserverInfo)>, tp: Seq<String>, b: int, i: int)
    requires
        sourced_from(obs, tp, b),
        unique_keys(obs),
        0 <= b <= i,
        0 <= i < obs.len(),
    ensures
        !str_in(tp, key_at(obs, i)),
{
    if str_in(tp, key_at(obs, i)) {
        let w = choose|w: int| 0 <= w < tp.len() && #[trigger] str_at(tp, w) == key_at(obs, i);
        assert(has_key(obs.take(b), str_at(tp, w)));
        let j = choose|j: int|
            0 <= j < obs.take(b).len() && #[trigger] key_at(obs.take(b), j) == str_at(tp, w);
        assert(obs.take(b)[j] == obs[j]);
        assert(key_at(obs, j) == key_at(obs, i));
        assert(key_at(obs, j) != key_at(obs, i));
    }
}

impl Room {
    /// Remove a player entirely: their cards go to the discard pile, the
    /// rotation closes around them, their identity bindings are dropped,
    /// and their name is marked as deliberately removed.
    pub fn remove_player(
        &mut self,
        player_name: &str,
        personal_msg: Option<ServerMsg>,
        out: &mut Vec<Outbound>,
    ) -> (removed: bool)
        requires
            old(self).wf_base(),
        ensures
            final(self).wf_base(),
            removed == old(self).is_player(player_name@),
            !removed ==> *final(self) == *old(self) && final(out)@ == old(out)@,
            removed ==> {
                &&& *final(self) == (Room {
                    players: final(self).players,
                    player_hand: final(self).player_hand,
                    player_order: final(self).player_order,
                    active_player: final(self).active_player,
                    discard_pile: final(self).discard_pile,
                    player_to_current_card: final(self).player_to_current_card,
                    player_to_vote: final(self).player_to_vote,
                    moderators: final(self).moderators,
                    creator: final(self).creator,
                    name_tokens: final(self).name_tokens,
                    connection_generation: final(self).connection_generation,
                    removed_players: final(self).removed_players,
                    ..*old(self)
                })
                &&& !final(self).is_member(player_name@)
                &&& (forall|x: Seq<char>|
                    x != player_name@ ==> final(self).is_player(x) == old(self).is_player(x))
                &&& (forall|x: Seq<char>|
                    x != player_name@ && old(self).is_player(x) ==> value_of(
                        final(self).players@,
                        x,
                    ) == value_of(old(self).players@, x))
                &&& (forall|x: Seq<char>|
                    final(self).is_observer(x) == old(self).is_observer(x))
                &&& final(self).players@.len() + 1 == old(self).players@.len()
                &&& !has_key(final(self).player_to_current_card@, player_name@)
                &&& (forall|x: Seq<char>|
                    x != player_name@ ==> has_key(final(self).player_to_current_card@, x)
                        == has_key(old(self).player_to_current_card@, x))
                &&& (forall|x: Seq<char>|
                    x != player_name@ && has_key(old(self).player_to_current_card@, x)
                        ==> value_of(final(self).player_to_current_card@, x) == value_of(
                        old(self).player_to_current_card@,
                        x,
                    ))
                &&& !has_key(final(self).player_to_vote@, player_name@)
                &&& (forall|x: Seq<char>|
                    x != player_name@ ==> has_key(final(self).player_to_vote@, x) == has_key(
                        old(self).player_to_vote@,
                        x,
                    ))
                &&& (forall|x: Seq<char>|
                    x != player_name@ && has_key(old(self).player_to_vote@, x) ==> value_of(
                        final(self).player_to_vote@,
                        x,
                    ) == value_of(old(self).player_to_vote@, x))
                &&& !str_in(final(self).player_order@, player_name@)
                &&& (forall|x: Seq<char>|
                    x != player_name@ ==> str_in(final(self).player_order@, x) == str_in(
                        old(self).player_order@,
                        x,
                    ))
                &&& ((old(self).player_order@.len() > 0 && old(self).active_name()
                    != player_name@) ==> (final(self).player_order@.len() > 0 && final(self).active_name() == old(self).active_name()))
                &&& (has_key(old(self).player_hand@, player_name@) ==> final(self).discard_pile@ == old(self).discard_pile@ + value_of(old(self).player_hand@, player_name@)@)
                &&& (!has_key(old(self).player_hand@, player_name@) ==> final(self).discard_pile@ == old(self).discard_pile@)
                &&& !has_key(final(self).player_hand@, player_name@)
                &&& (forall|x: Seq<char>|
                    x != player_name@ ==> has_key(final(self).player_hand@, x) == has_key(
                        old(self).player_hand@,
                        x,
                    ))
                &&& (forall|x: Seq<char>|
                    x != player_name@ && has_key(old(self).player_hand@, x) ==> value_of(
                        final(self).player_hand@,
                        x,
                    ) == value_of(old(self).player_hand@, x))
                &&& (str_in(old(self).player_order@, player_name@) ==> (exists|i: int|
                    {
                        &&& 0 <= i < old(self).player_order@.len()
                        &&& #[trigger] str_at(old(self).player_order@, i) == player_name@
                        &&& final(self).player_order@ == old(self).player_order@.remove(i)
                        &&& final(self).active_player as int == (if ({
                            let shifted: int = if i < old(self).active_player {
                                old(self).active_player - 1
                            } else {
                                old(self).active_player as int
                            };
                            shifted >= final(self).player_order@.len()
                        }) {
                            0int
                        } else {
                            if i < old(self).active_player {
                                old(self).active_player - 1
                            } else {
                                old(self).active_player as int
                            }
                        })
                    }))
                &&& (!str_in(old(self).player_order@, player_name@) ==> final(self).player_order@ == old(self).player_order@ && final(self).active_player == old(self).active_player)
                &&& (forall|x: Seq<char>|
                    #[trigger] str_in(final(self).moderators@, x) == (str_in(
                        old(self).moderators@,
                        x,
                    ) && x != player_name@))
                &&& final(self).creator == (if old(self).creator_is(player_name@) {
                    None
                } else {
                    old(self).creator
                })
                &&& !has_key(final(self).name_tokens@, player_name@)
                &&& (forall|x: Seq<char>|
                    x != player_name@ ==> has_key(final(self).name_tokens@, x) == has_key(
                        old(self).name_tokens@,
                        x,
                    ))
                &&& (forall|x: Seq<char>|
                    x != player_name@ && has_key(old(self).name_tokens@, x) ==> value_of(
                        final(self).name_tokens@,
                        x,
                    ) == value_of(old(self).name_tokens@, x))
                &&& !has_key(final(self).connection_generation@, player_name@)
                &&& (forall|x: Seq<char>|
                    x != player_name@ ==> has_key(final(self).connection_generation@, x)
                        == has_key(old(self).connection_generation@, x))
                &&& (forall|x: Seq<char>|
                    x != player_name@ && has_key(old(self).connection_generation@, x)
                        ==> value_of(final(self).connection_generation@, x) == value_of(
                        old(self).connection_generation@,
                        x,
                    ))
                &&& (forall|x: Seq<char>|
                    #[trigger] str_in(final(self).removed_players@, x) == (str_in(
                        old(self).removed_players@,
                        x,
                    ) || x == player_name@))
                &&& final(out)@.len() == old(out)@.len() + (if personal_msg is Some {
                    1int
                } else {
                    0int
                })
                &&& (forall|i: int| 0 <= i < old(out)@.len() ==> final(out)@[i] == old(out)@[i])
                &&& (personal_msg matches Some(m) ==> (final(out)@.last() matches Outbound::Direct {
                    name: n,
                    msg,
                } && n@ == player_name@ && msg == m))
            },
    {
        if !has_entry(&self.players, player_name) {
            return false;
        }
        self.remove_player_core(player_name);
        let ghost mid = *self;
        remove_str(&mut self.moderators, player_name);
        if self.is_creator(player_name) {
            self.creator = None;
        }
        remove_entry(&mut self.name_tokens, player_name);
        remove_entry(&mut self.connection_generation, player_name);
        insert_str(&mut self.removed_players, player_name);
        proof {
            assert forall|i: int| 0 <= i < self.moderators@.len() implies self.is_member(
                #[trigger] str_at(self.moderators@, i),
            ) by {
                let x = str_at(self.moderators@, i);
                assert(str_in(self.moderators@, x));
                assert(str_in(old(self).moderators@, x) && x != player_name@);
                let w = choose|w: int|
                    0 <= w < old(self).moderators@.len() && #[trigger] str_at(
                        old(self).moderators@,
                        w,
                    ) == x;
                assert(old(self).is_member(x));
            }
            let cr = self.creator;
            match cr {
                Some(c) => {
                    if self.is_member(c@) {
                        assert(c@ != player_name@);
                        assert(old(self).is_member(c@));
                        assert(str_in(old(self).moderators@, c@));
                        assert(str_in(self.moderators@, c@));
                    }
                },
                None => {
                },
            }
            assert forall|i: int| 0 <= i < self.connection_generation@.len() implies (
            #[trigger] self.connection_generation@[i]).1 <= self.next_generation by {
                if has_key(old(self).connection_generation@, player_name@) {
                    let idx = index_of_key(old(self).connection_generation@, player_name@);
                    assert(self.connection_generation@ == old(self).connection_generation@.remove(
                        idx,
                    ));
                    let oi = if i < idx {
                        i
                    } else {
                        i + 1
                    };
                    assert(self.connection_generation@[i] == old(self).connection_generation@[oi]);
                } else {
                    assert(self.connection_generation@ == old(self).connection_generation@);
                }
            }
            assert forall|x: Seq<char>| !(#[trigger] has_key(self.players@, x) && has_key(
                self.observers@,
                x,
            )) by {
                if has_key(self.players@, x) {
                    assert(self.players@ == mid.players@);
                    assert(mid.is_player(x));
                    assert(x != player_name@);
                    assert(mid.is_player(x) == old(self).is_player(x));
                    assert(has_key(old(self).players@, x));
                }
            }
            assert(self.wf_tables());
            assert(self.wf_order());
            assert(self.wf_members());
            assert(self.wf_cards());
            assert(self.wf_submissions());
            assert(self.wf_votes());
            assert(self.wf_generations());
        }
        match personal_msg {
            Some(m) => {
                out.push(Outbound::Direct { name: player_name.to_owned(), msg: m });
            },
            None => {
            },
        }
        true
    }

    /// Remove an observer entirely, dropping their identity bindings.
    pub fn remove_observer(
        &mut self,
        name: &str,
        personal_msg: Option<ServerMsg>,
        out: &mut Vec<Outbound>,
    ) -> (removed: bool)
        requires
            old(self).wf_base(),
        ensures
            final(self).wf_base(),
            removed == old(self).is_observer(name@),
            old(self).wf_coherent() && !old(self).is_player(name@) ==> final(self).wf_coherent(),
            !removed ==> *final(self) == *old(self) && final(out)@ == old(out)@,
            removed ==> {
                &&& *final(self) == (Room {
                    observers: final(self).observers,
                    moderators: final(self).moderators,
                    creator: final(self).creator,
                    name_tokens: final(self).name_tokens,
                    connection_generation: final(self).connection_generation,
                    removed_players: final(self).removed_players,
                    ..*old(self)
                })
                &&& !final(self).is_member(name@)
                &&& (forall|x: Seq<char>|
                    x != name@ ==> final(self).is_observer(x) == old(self).is_observer(x))
                &&& (forall|x: Seq<char>|
                    x != name@ && old(self).is_observer(x) ==> value_of(
                        final(self).observers@,
                        x,
                    ) == value_of(old(self).observers@, x))
                &&& final(self).observers@.len() + 1 == old(self).observers@.len()
                &&& (forall|x: Seq<char>|
                    #[trigger] str_in(final(self).moderators@, x) == (str_in(
                        old(self).moderators@,
                        x,
                    ) && x != name@))
                &&& final(self).creator == (if old(self).creator_is(name@) {
                    None
                } else {
                    old(self).creator
                })
                &&& !has_key(final(self).name_tokens@, name@)
                &&& !has_key(final(self).connection_generation@, name@)
                &&& (forall|x: Seq<char>|
                    x != name@ ==> has_key(final(self).name_tokens@, x) == has_key(
                        old(self).name_tokens@,
                        x,
                    ))
                &&& (forall|x: Seq<char>|
                    x != name@ ==> has_key(final(self).connection_generation@, x) == has_key(
                        old(self).connection_generation@,
                        x,
                    ))
                &&& (forall|x: Seq<char>|
                    x != name@ && has_key(old(self).connection_generation@, x) ==> value_of(
                        final(self).connection_generation@,
                        x,
                    ) == value_of(old(self).connection_generation@, x))
                &&& (forall|x: Seq<char>|
                    #[trigger] str_in(final(self).removed_players@, x) == (str_in(
                        old(self).removed_players@,
                        x,
                    ) || x == name@))
                &&& final(out)@.len() == old(out)@.len() + (if personal_msg is Some {
                    1int
                } else {
                    0int
                })
                &&& (forall|i: int| 0 <= i < old(out)@.len() ==> final(out)@[i] == old(out)@[i])
                &&& (personal_msg matches Some(m) ==> (final(out)@.last() matches Outbound::Direct {
                    name: n,
                    msg,
                } && n@ == name@ && msg == m))
            },
    {
        if !has_entry(&self.observers, name) {
            return false;
        }
        remove_entry(&mut self.observers, name);
        remove_str(&mut self.moderators, name);
        if self.is_creator(name) {
            self.creator = None;
        }
        remove_entry(&mut self.name_tokens, name);
        remove_entry(&mut self.connection_generation, name);
        insert_str(&mut self.removed_players, name);
        proof {
            assert forall|i: int| 0 <= i < self.moderators@.len() implies self.is_member(
                #[trigger] str_at(self.moderators@, i),
            ) by {
                let x = str_at(self.moderators@, i);
                assert(str_in(self.moderators@, x));
                assert(str_in(old(self).moderators@, x) && x != name@);
                let w = choose|w: int|
                    0 <= w < old(self).moderators@.len() && #[trigger] str_at(
                        old(self).moderators@,
                        w,
                    ) == x;
                assert(old(self).is_member(x));
            }
        }
        match personal_msg {
            Some(m) => {
                out.push(Outbound::Direct { name: name.to_owned(), msg: m });
            },
            None => {
            },
        }
        true
    }
}

impl Room {
    /// Turn a player into an observer, keeping points, connection state,
    /// identity bindings and moderator status; the cards flow exactly as
    /// on removal.
    pub fn convert_player_to_observer(
        &mut self,
        player_name: &str,
        auto_join_on_next_round: bool,
    ) -> (converted: bool)
        requires
            old(self).wf_base(),
        ensures
            final(self).wf_base(),
            converted == old(self).is_player(player_name@),
            !converted ==> *final(self) == *old(self),
            converted ==> {
                &&& *final(self) == (Room {
                    players: final(self).players,
                    player_hand: final(self).player_hand,
                    player_order: final(self).player_order,
                    active_player: final(self).active_player,
                    discard_pile: final(self).discard_pile,
                    player_to_current_card: final(self).player_to_current_card,
                    player_to_vote: final(self).player_to_vote,
                    observers: final(self).observers,
                    moderators: final(self).moderators,
                    ..*old(self)
                })
                &&& !final(self).is_player(player_name@)
                &&& final(self).is_observer(player_name@)
                &&& value_of(final(self).observers@, player_name@) == (ObserverInfo {
                    connected: value_of(old(self).players@, player_name@).connected,
                    points: value_of(old(self).players@, player_name@).points,
                    join_requested: false,
                    auto_join_on_next_round: auto_join_on_next_round,
                })
                &&& (forall|x: Seq<char>|
                    x != player_name@ ==> final(self).is_player(x) == old(self).is_player(x))
                &&& (forall|x: Seq<char>|
                    x != player_name@ && old(self).is_player(x) ==> value_of(
                        final(self).players@,
                        x,
                    ) == value_of(old(self).players@, x))
                &&& (forall|x: Seq<char>|
                    x != player_name@ ==> final(self).is_observer(x) == old(self).is_observer(x))
                &&& (forall|x: Seq<char>|
                    x != player_name@ && old(self).is_observer(x) ==> value_of(
                        final(self).observers@,
                        x,
                    ) == value_of(old(self).observers@, x))
                &&& final(self).players@.len() + 1 == old(self).players@.len()
                &&& final(self).observers@.len() == old(self).observers@.len() + 1
                &&& !has_key(final(self).player_to_current_card@, player_name@)
                &&& (forall|x: Seq<char>|
                    x != player_name@ ==> has_key(final(self).player_to_current_card@, x)
                        == has_key(old(self).player_to_current_card@, x))
                &&& (forall|x: Seq<char>|
                    x != player_name@ && has_key(old(self).player_to_current_card@, x)
                        ==> value_of(final(self).player_to_current_card@, x) == value_of(
                        old(self).player_to_current_card@,
                        x,
                    ))
                &&& !has_key(final(self).player_to_vote@, player_name@)
                &&& (forall|x: Seq<char>|
                    x != player_name@ ==> has_key(final(self).player_to_vote@, x) == has_key(
                        old(self).player_to_vote@,
                        x,
                    ))
                &&& !str_in(final(self).player_order@, player_name@)
                &&& (forall|x: Seq<char>|
                    x != player_name@ ==> str_in(final(self).player_order@, x) == str_in(
                        old(self).player_order@,
                        x,
                    ))
                &&& ((old(self).player_order@.len() > 0 && old(self).active_name()
                    != player_name@) ==> (final(self).player_order@.len() > 0 && final(self).active_name() == old(self).active_name()))
                &&& (has_key(old(self).player_hand@, player_name@) ==> final(self).discard_pile@ == old(self).discard_pile@ + value_of(old(self).player_hand@, player_name@)@)
                &&& (!has_key(old(self).player_hand@, player_name@) ==> final(self).discard_pile@ == old(self).discard_pile@)
                &&& !has_key(final(self).player_hand@, player_name@)
                &&& (forall|x: Seq<char>|
                    x != player_name@ ==> has_key(final(self).player_hand@, x) == has_key(
                        old(self).player_hand@,
                        x,
                    ))
                &&& (forall|x: Seq<char>|
                    x != player_name@ && has_key(old(self).player_hand@, x) ==> value_of(
                        final(self).player_hand@,
                        x,
                    ) == value_of(old(self).player_hand@, x))
                &&& (str_in(old(self).player_order@, player_name@) ==> (exists|i: int|
                    {
                        &&& 0 <= i < old(self).player_order@.len()
                        &&& #[trigger] str_at(old(self).player_order@, i) == player_name@
                        &&& final(self).player_order@ == old(self).player_order@.remove(i)
                        &&& final(self).active_player as int == (if ({
                            let shifted: int = if i < old(self).active_player {
                                old(self).active_player - 1
                            } else {
                                old(self).active_player as int
                            };
                            shifted >= final(self).player_order@.len()
                        }) {
                            0int
                        } else {
                            if i < old(self).active_player {
                                old(self).active_player - 1
                            } else {
                                old(self).active_player as int
                            }
                        })
                    }))
                &&& (!str_in(old(self).player_order@, player_name@) ==> final(self).player_order@ == old(self).player_order@ && final(self).active_player == old(self).active_player)
                &&& (forall|x: Seq<char>|
                    #[trigger] str_in(final(self).moderators@, x) == str_in(
                        old(self).moderators@,
                        x,
                    ))
            },
    {
        let info = match read_entry(&self.players, player_name) {
            Some(p) => *p,
            None => {
                return false;
            },
        };
        self.remove_player_core(player_name);
        let ghost mid = *self;
        put_entry(
            &mut self.observers,
            player_name,
            ObserverInfo {
                connected: info.connected,
                points: info.points,
                join_requested: false,
                auto_join_on_next_round,
            },
        );
        proof {
            assert forall|x: Seq<char>| !(#[trigger] has_key(self.players@, x) && has_key(
                self.observers@,
                x,
            )) by {
                if has_key(self.players@, x) {
                    assert(self.players@ == mid.players@);
                    assert(mid.is_player(x));
                    assert(x != player_name@);
                    assert(old(self).is_player(x));
                    assert(!old(self).is_observer(x));
                }
            }
            assert forall|i: int| 0 <= i < self.moderators@.len() implies self.is_member(
                #[trigger] str_at(self.moderators@, i),
            ) by {
                let x = str_at(self.moderators@, i);
                assert(str_in(old(self).moderators@, x));
                let w = choose|w: int|
                    0 <= w < old(self).moderators@.len() && #[trigger] str_at(
                        old(self).moderators@,
                        w,
                    ) == x;
                assert(old(self).is_member(x));
                if x == player_name@ {
                    assert(self.is_observer(x));
                }
            }
            let cr = self.creator;
            match cr {
                Some(c) => {
                    if self.is_member(c@) {
                        if c@ == player_name@ {
                            assert(old(self).is_member(c@));
                        } else {
                            assert(old(self).is_member(c@));
                        }
                        assert(str_in(self.moderators@, c@));
                    }
                },
                None => {
                },
            }
        }
        self.clean_moderators();
        proof {
            assert forall|x: Seq<char>| #[trigger] str_in(final(self).moderators@, x) == str_in(
                old(self).moderators@,
                x,
            ) by {
                if str_in(old(self).moderators@, x) {
                    let w = choose|w: int|
                        0 <= w < old(self).moderators@.len() && #[trigger] str_at(
                            old(self).moderators@,
                            w,
                        ) == x;
                    assert(old(self).is_member(x));
                    if x == player_name@ {
                        assert(self.is_observer(x));
                    }
                }
            }
        }
        true
    }

    /// Promote every observer who asked to join (or was queued to join
    /// automatically), lifting their score to at least the lowest player
    /// score, and re-synchronize the turn order.
    pub fn promote_requested_observers(&mut self) -> (promoted: usize)
        requires
            old(self).wf_base(),
        ensures
            final(self).wf_base(),
            promoted == count_promotable(old(self).observers@),
            promoted == 0 ==> *final(self) == *old(self),
            *final(self) == (Room {
                players: final(self).players,
                observers: final(self).observers,
                moderators: final(self).moderators,
                player_order: final(self).player_order,
                active_player: final(self).active_player,
                ..*old(self)
            }),
            forall|x: Seq<char>|
                #[trigger] final(self).is_player(x) == (old(self).is_player(x) || (old(self).is_observer(x) && should_promote(value_of(old(self).observers@, x)))),
            forall|x: Seq<char>|
                #[trigger] final(self).is_observer(x) == (old(self).is_observer(x)
                    && !should_promote(value_of(old(self).observers@, x))),
            forall|x: Seq<char>|
                old(self).is_player(x) ==> value_of(final(self).players@, x) == value_of(
                    old(self).players@,
                    x,
                ),
            forall|x: Seq<char>|
                old(self).is_observer(x) && should_promote(value_of(old(self).observers@, x))
                    && !old(self).is_player(x) ==> value_of(final(self).players@, x)
                    == (PlayerInfo {
                    connected: value_of(old(self).observers@, x).connected,
                    points: if value_of(old(self).observers@, x).points > old(self).floor_score() {
                        value_of(old(self).observers@, x).points
                    } else {
                        old(self).floor_score()
                    },
                    ready: false,
                }),
            forall|x: Seq<char>|
                old(self).is_observer(x) && !should_promote(value_of(old(self).observers@, x))
                    ==> value_of(final(self).observers@, x) == value_of(old(self).observers@, x),
            forall|x: Seq<char>|
                #[trigger] str_in(final(self).moderators@, x) == str_in(old(self).moderators@, x),
            final(self).players@.len() + final(self).observers@.len() == old(self).players@.len()
                + old(self).observers@.len(),
            final(self).players@.len() == old(self).players@.len() + promoted,
            forall|i: int|
                0 <= i < old(self).players@.len() ==> final(self).players@[i] == old(self).players@[i],
            forall|i: int|
                old(self).players@.len() <= i < final(self).players@.len() ==> has_key(
                    old(self).observers@,
                    #[trigger] key_at(final(self).players@, i),
                ),
            promoted > 0 ==> final(self).player_order@.len() == final(self).players@.len(),
            promoted > 0 ==> forall|x: Seq<char>|
                #[trigger] final(self).is_player(x) ==> str_in(final(self).player_order@, x),
            promoted > 0 ==> forall|i: int|
                0 <= i < final(self).player_order@.len() ==> final(self).is_player(
                    #[trigger] str_at(final(self).player_order@, i),
                ),
            final(self).player_order@.len() == 0 ==> final(self).active_player == 0,
            final(self).player_order@.len() > 0 ==> final(self).active_player < final(self).player_order@.len() || final(self).active_player == old(self).active_player,
            (old(self).player_order@.len() > 0 && old(self).active_player < old(self).player_order@.len() && (forall|i: int|
                0 <= i < old(self).player_order@.len() ==> old(self).is_player(
                    #[trigger] str_at(old(self).player_order@, i),
                ))) ==> (final(self).active_player == old(self).active_player && forall|i: int|
                0 <= i < old(self).player_order@.len() ==> final(self).player_order@[i] == old(self).player_order@[i]),
    {
        let ghost s0 = *self;
        let mut to_promote: Vec<String> = Vec::new();
        let n = self.observers.len();
        let mut i: usize = 0;
        while i < n
            invariant
                i <= n,
                *self == s0,
                s0.wf_base(),
                n == self.observers@.len(),
                strs_unique(to_promote@),
                to_promote@.len() == count_promotable(self.observers@.subrange(0, i as int)),
                forall|k: int|
                    0 <= k < to_promote@.len() ==> has_key(
                        self.observers@,
                        #[trigger] str_at(to_promote@, k),
                    ) && should_promote(value_of(self.observers@, str_at(to_promote@, k))),
                forall|j: int|
                    0 <= j < i && should_promote((#[trigger] self.observers@[j]).1) ==> str_in(
                        to_promote@,
                        key_at(self.observers@, j),
                    ),
                sourced_from(self.observers@, to_promote@, i as int),
            decreases n - i,
        {
            proof {
                assert(self.observers@.subrange(0, i + 1).drop_last() =~= self.observers@.subrange(
                    0,
                    i as int,
                ));
                assert(self.observers@.subrange(0, i + 1).last() == self.observers@[i as int]);
            }
            if self.observers[i].1.join_requested || self.observers[i].1.auto_join_on_next_round {
                let name = self.observers[i].0.clone();
                let ghost prev = to_promote@;
                proof {
                    assert(key_at(self.observers@, i as int) == name@);
                    lemma_index_of_key(self.observers@, name@, i as int);
                    crate::names::lemma_str_in_push(to_promote@, name);
                    lemma_sourced_fresh(self.observers@, to_promote@, i as int, i as int);
                    lemma_sourced_push(
                        self.observers@,
                        to_promote@,
                        i as int,
                        i + 1,
                        name,
                        i as int,
                    );
                }
                to_promote.push(name);
                proof {
                    assert forall|k: int| 0 <= k < to_promote@.len() implies has_key(
                        self.observers@,
                        #[trigger] str_at(to_promote@, k),
                    ) && should_promote(value_of(self.observers@, str_at(to_promote@, k))) by {
                        if k < prev.len() {
                            assert(str_at(to_promote@, k) == str_at(prev, k));
                        } else {
                            assert(str_at(to_promote@, k) == name@);
                        }
                    }
                    assert forall|a: int, b: int| 0 <= a < b < to_promote@.len() implies
                        #[trigger] str_at(to_promote@, a) != #[trigger] str_at(
                        to_promote@,
                        b,
                    ) by {
                        if b < prev.len() {
                            assert(str_at(to_promote@, a) == str_at(prev, a));
                            assert(str_at(to_promote@, b) == str_at(prev, b));
                        } else {
                            assert(str_at(to_promote@, a) == str_at(prev, a));
                            assert(str_at(to_promote@, b) == name@);
                            if str_at(prev, a) == name@ {
                                assert(str_in(prev, name@));
                            }
                        }
                    }
                }
            } else {
                proof {
                    lemma_sourced_widen(self.observers@, to_promote@, i as int, i + 1);
                }
            }
            i = i + 1;
        }
        proof {
            assert(self.observers@.subrange(0, n as int) =~= self.observers@);
        }
        if to_promote.len() == 0 {
            return 0;
        }
        let floor = self.observer_floor_score();
        let count = to_promote.len();
        let m = to_promote.len();
        let mut j: usize = 0;
        while j < m
            invariant
                j <= m,
                m == to_promote@.len(),
                s0.wf_base(),
                *self == (Room {
                    players: self.players,
                    observers: self.observers,
                    ..s0
                }),
                unique_keys(self.players@),
                unique_keys(self.observers@),
                strs_unique(to_promote@),
                forall|k: int|
                    0 <= k < m ==> has_key(
                        s0.observers@,
                        #[trigger] str_at(to_promote@, k),
                    ) && should_promote(value_of(s0.observers@, str_at(to_promote@, k))),
                forall|x: Seq<char>|
                    #[trigger] has_key(self.players@, x) == (has_key(s0.players@, x) || (exists|
                        k: int,
                    |
                        0 <= k < j && #[trigger] str_at(to_promote@, k) == x)),
                forall|x: Seq<char>|
                    #[trigger] has_key(self.observers@, x) == (has_key(s0.observers@, x)
                        && !(exists|k: int| 0 <= k < j && #[trigger] str_at(to_promote@, k) == x)),
                forall|x: Seq<char>|
                    has_key(s0.players@, x) ==> value_of(self.players@, x) == value_of(
                        s0.players@,
                        x,
                    ),
                forall|x: Seq<char>|
                    (exists|k: int| 0 <= k < j && #[trigger] str_at(to_promote@, k) == x)
                        && !has_key(s0.players@, x) ==> value_of(self.players@, x)
                        == (PlayerInfo {
                        connected: value_of(s0.observers@, x).connected,
                        points: if value_of(s0.observers@, x).points > floor {
                            value_of(s0.observers@, x).points
                        } else {
                            floor
                        },
                        ready: false,
                    }),
                forall|x: Seq<char>|
                    has_key(self.observers@, x) ==> value_of(self.observers@, x) == value_of(
                        s0.observers@,
                        x,
                    ),
                self.players@.len() + self.observers@.len() == s0.players@.len()
                    + s0.observers@.len(),
                self.players@.len() == s0.players@.len() + j,
                forall|i: int|
                    0 <= i < s0.players@.len() ==> self.players@[i] == s0.players@[i],
                forall|i: int|
                    s0.players@.len() <= i < self.players@.len() ==> has_key(
                        s0.observers@,
                        #[trigger] key_at(self.players@, i),
                    ),
                floor == s0.floor_score(),
            decreases m - j,
        {
            let name = to_promote[j].clone();
            proof {
                assert(str_at(to_promote@, j as int) == name@);
                assert(has_key(s0.observers@, name@));
                assert(has_key(self.observers@, name@)) by {
                    if exists|k: int| 0 <= k < j && #[trigger] str_at(to_promote@, k) == name@ {
                        let k = choose|k: int|
                            0 <= k < j && #[trigger] str_at(to_promote@, k) == name@;
                        assert(str_at(to_promote@, k) != str_at(to_promote@, j as int));
                    }
                }
            }
            let obs = match remove_entry(&mut self.observers, name.as_str()) {
                Some(o) => o,
                None => {
                    proof {
                        assert(false);
                    }
                    ObserverInfo {
                        connected: false,
                        points: 0,
                        join_requested: false,
                        auto_join_on_next_round: false,
                    }
                },
            };
            let pts = if obs.points > floor {
                obs.points
            } else {
                floor
            };
            put_entry(
                &mut self.players,
                name.as_str(),
                PlayerInfo { connected: obs.connected, points: pts, ready: false },
            );
            proof {
                assert(!has_key(s0.players@, name@)) by {
                    assert(has_key(s0.observers@, name@));
                }
                assert(key_at(self.players@, self.players@.len() - 1) == name@);
                assert(has_key(s0.observers@, name@));
                assert forall|x: Seq<char>| #[trigger] has_key(self.players@, x) == (has_key(
                    s0.players@,
                    x,
                ) || (exists|k: int| 0 <= k <= j && #[trigger] str_at(to_promote@, k) == x)) by {
                    if x == name@ {
                        assert(str_at(to_promote@, j as int) == x);
                    }
                }
                assert forall|x: Seq<char>| #[trigger] has_key(self.observers@, x) == (has_key(
                    s0.observers@,
                    x,
                ) && !(exists|k: int| 0 <= k <= j && #[trigger] str_at(to_promote@, k) == x)) by {
                    if x == name@ {
                        assert(str_at(to_promote@, j as int) == x);
                    }
                }
            }
            j = j + 1;
        }
        proof {
            // Membership after the loop, phrased over promotability.
            assert forall|x: Seq<char>| #[trigger] has_key(self.players@, x) == (has_key(
                s0.players@,
                x,
            ) || (has_key(s0.observers@, x) && should_promote(value_of(s0.observers@, x)))) by {
                if has_key(s0.observers@, x) && should_promote(value_of(s0.observers@, x)) {
                    lemma_key_index_valid(s0.observers@, x);
                    let w = index_of_key(s0.observers@, x);
                    lemma_index_of_key(s0.observers@, x, w);
                    assert(str_in(to_promote@, x));
                    let k = choose|k: int|
                        0 <= k < to_promote@.len() && #[trigger] str_at(to_promote@, k) == x;
                }
                if exists|k: int| 0 <= k < m && #[trigger] str_at(to_promote@, k) == x {
                    let k = choose|k: int| 0 <= k < m && #[trigger] str_at(to_promote@, k) == x;
                }
            }
            assert forall|x: Seq<char>| #[trigger] has_key(self.observers@, x) == (has_key(
                s0.observers@,
                x,
            ) && !should_promote(value_of(s0.observers@, x))) by {
                if has_key(s0.observers@, x) && should_promote(value_of(s0.observers@, x)) {
                    lemma_key_index_valid(s0.observers@, x);
                    let w = index_of_key(s0.observers@, x);
                    lemma_index_of_key(s0.observers@, x, w);
                    assert(str_in(to_promote@, x));
                    let k = choose|k: int|
                        0 <= k < to_promote@.len() && #[trigger] str_at(to_promote@, k) == x;
                }
                if exists|k: int| 0 <= k < m && #[trigger] str_at(to_promote@, k) == x {
                    let k = choose|k: int| 0 <= k < m && #[trigger] str_at(to_promote@, k) == x;
                }
            }
            // Disjointness and moderator membership for the cleanup.
            assert forall|x: Seq<char>| !(#[trigger] has_key(self.players@, x) && has_key(
                self.observers@,
                x,
            )) by {
            }
            assert forall|i2: int| 0 <= i2 < self.moderators@.len() implies self.is_member(
                #[trigger] str_at(self.moderators@, i2),
            ) by {
                let x = str_at(self.moderators@, i2);
                assert(str_in(s0.moderators@, x));
                assert(s0.is_member(x));
            }
            let cr = self.creator;
            match cr {
                Some(c) => {
                    if self.is_member(c@) {
                        assert(s0.is_member(c@));
                        assert(str_in(self.moderators@, c@));
                    }
                },
                None => {
                },
            }
        }
        self.sync_player_order_with_players();
        self.clean_moderators();
        proof {
            assert forall|x: Seq<char>| #[trigger] str_in(final(self).moderators@, x) == str_in(
                s0.moderators@,
                x,
            ) by {
                if str_in(s0.moderators@, x) {
                    let w = choose|w: int|
                        0 <= w < s0.moderators@.len() && #[trigger] str_at(s0.moderators@, w) == x;
                    assert(s0.is_member(x));
                }
            }
            assert forall|x: Seq<char>| #[trigger] final(self).is_player(x) implies str_in(
                final(self).player_order@,
                x,
            ) by {
            }
        }
        count
    }

    /// Enter the paused stage when a running game has too few players:
    /// round artifacts are dropped (hands stay) and a snapshot goes out.
    pub fn maybe_pause_for_low_player_count(&mut self, out: &mut Vec<Outbound>) -> (paused: bool)
        requires
            old(self).wf_base(),
        ensures
            final(self).wf_base(),
            paused == (old(self).stage != RoomStage::Joining && old(self).stage != RoomStage::End
                && old(self).players@.len() < crate::room::MIN_PLAYERS),
            !paused ==> *final(self) == *old(self) && final(out)@ == old(out)@,
            paused ==> {
                &&& final(self).wf()
                &&& *final(self) == (Room {
                    stage: final(self).stage,
                    paused_reason: final(self).paused_reason,
                    current_description: final(self).current_description,
                    player_to_current_card: final(self).player_to_current_card,
                    player_to_vote: final(self).player_to_vote,
                    players: final(self).players,
                    ..*old(self)
                })
                &&& final(self).stage == RoomStage::Paused
                &&& (final(self).paused_reason matches Some(re) && re@
                    == "Need at least 3 non-observer players. Ask a player to join."@)
                &&& final(self).round == old(self).round
                &&& final(self).player_to_current_card@.len() == 0
                &&& final(self).player_to_vote@.len() == 0
                &&& (forall|x: Seq<char>|
                    #[trigger] final(self).is_player(x) == old(self).is_player(x))
                &&& final(self).player_hand@ == old(self).player_hand@
                &&& final(self).current_description@ == Seq::<char>::empty()
                &&& crate::room::count_ready(final(self).players@) == 0
                &&& final(self).players@.len() == old(self).players@.len()
                &&& (forall|i: int|
                    0 <= i < old(self).players@.len() ==> final(self).players@[i] == ((
                    old(self).players@[i].0,
                    PlayerInfo { ready: false, ..old(self).players@[i].1 },
                )))
                &&& final(out)@.len() == old(out)@.len() + 1
                &&& (forall|i: int| 0 <= i < old(out)@.len() ==> final(out)@[i] == old(out)@[i])
                &&& (final(out)@.last() matches Outbound::Broadcast(m) && final(self).is_room_state_of(m))
            },
    {
        match self.stage {
            RoomStage::Joining => {
                return false;
            },
            RoomStage::End => {
                return false;
            },
            _ => {
            },
        }
        if self.non_observer_player_count() >= crate::room::MIN_PLAYERS {
            return false;
        }
        self.reset_round_keep_hands();
        self.stage = RoomStage::Paused;
        let reason = self.pause_reason();
        self.paused_reason = Some(reason);
        proof {
            assert(self.wf_base());
            assert(self.wf_coherent());
        }
        let msg = self.room_state();
        out.push(Outbound::Broadcast(msg));
        true
    }

    /// The score a promoted observer is lifted to at least, as a spec
    /// value: the executable twin is `observer_floor_score`.
    pub open spec fn floor_score(self) -> u16 {
        if self.players@.len() > 0 {
            crate::room::seq_min_u16(crate::room::player_points(self.players@))
        } else if self.observers@.len() > 0 {
            crate::room::seq_min_u16(crate::room::observer_points(self.observers@))
        } else {
            0
        }
    }
}

/// Removing one submission entry keeps the remaining cards pairwise
/// distinct.
proof fn lemma_cur_after_remove(
    before: Seq<(String, String)>,
    after: Seq<(String, String)>,
)
    requires
        forall|i: int, j: int|
            0 <= i < j < before.len() ==> (#[trigger] before[i]).1@ != (#[trigger] before[j]).1@,
        after == before || exists|k: int| 0 <= k < before.len() && after == before.remove(k),
    ensures
        forall|i: int, j: int|
            0 <= i < j < after.len() ==> (#[trigger] after[i]).1@ != (#[trigger] after[j]).1@,
{
    if after != before {
        let k = choose|k: int| 0 <= k < before.len() && after == before.remove(k);
        assert forall|i: int, j: int| 0 <= i < j < after.len() implies (
        #[trigger] after[i]).1@ != (#[trigger] after[j]).1@ by {
            let oi = if i < k {
                i
            } else {
                i + 1
            };
            let oj = if j < k {
                j
            } else {
                j + 1
            };
            assert(after[i] == before[oi]);
            assert(after[j] == before[oj]);
        }
    }
}

} // verus!
