//! The session protocol: joining and reconnecting under a name token,
//! the at-most-one-session-per-name generation discipline, disconnects,
//! and periodic maintenance.

use vstd::prelude::*;
use crate::cards::{card_bag, lemma_card_bag_push, lemma_card_bag_drop_last, hands_bag};
use crate::msgs::{ObserverInfo, Outbound, PlayerInfo, RoomStage, ServerMsg};
use crate::names::{str_at, str_in, insert_str, remove_str};
use crate::room::Room;
use crate::tbl::{
    has_key, key_at, unique_keys, value_of, index_of_key, read_entry, put_entry, remove_entry,
    has_entry, lemma_key_index_valid,
};
use crate::text::{is_blank, is_blank_spec};

verus! {

/// The longest display name a member may register.
pub const MAX_NAME_CHARS: usize = 30;

/// The most seated players a lobby admits before new names are turned
/// away.
pub const LOBBY_PLAYER_CAP: usize = 8;

impl Room {
    /// Why a join is refused, if it is: a malformed name or token, a
    /// token that does not own the name, or no room for a new member.
    pub open spec fn join_rejected(self, name: Seq<char>, token: Seq<char>) -> bool {
        ||| name.len() == 0
        ||| name.len() > MAX_NAME_CHARS
        ||| is_blank_spec(token)
        ||| !self.token_ok(name, token)
        ||| (!self.is_member(name) && (self.players@.len() + self.observers@.len()
            >= self.max_members || self.stage == RoomStage::End || (self.stage
            != RoomStage::Joining && !self.allow_new_players_midgame) || (self.stage
            == RoomStage::Joining && self.players@.len() >= LOBBY_PLAYER_CAP)))
    }

    /// The join attempt was answered with exactly one error message to
    /// the joiner.
    pub open spec fn join_refused_with(
        self,
        out0: Seq<Outbound>,
        out1: Seq<Outbound>,
        text: Seq<char>,
    ) -> bool {
        &&& out1.len() == out0.len() + 1
        &&& (out1.last() matches Outbound::ToJoiner(m) && (m matches ServerMsg::ErrorMsg(t) && t@
            == text))
    }

    /// Handle one join request: reconnect an existing member, or admit a
    /// new player or observer depending on the stage, then mint the new
    /// session's generation.  On rejection the joiner gets an error
    /// message and the room keeps only the timestamp of the attempt.
    #[verifier::rlimit(80)]
    pub fn attempt_join(&mut self, name: &str, token: &str, out: &mut Vec<Outbound>) -> (r:
        Option<u64>)
        requires
            old(self).wf(),
        ensures
            final(self).wf(),
            forall|i: int| 0 <= i < old(out)@.len() ==> final(out)@[i] == old(out)@[i],
            r is Some <==> !old(self).join_rejected(name@, token@),
            r is None ==> *final(self) == *old(self),
            r matches Some(g) ==> {
                &&& final(self).is_member(name@)
                &&& has_key(final(self).connection_generation@, name@)
                &&& value_of(final(self).connection_generation@, name@) == g
                &&& has_key(final(self).name_tokens@, name@)
                &&& value_of(final(self).name_tokens@, name@)@ == token@
                &&& g == final(self).next_generation
                &&& final(self).next_generation as int == (if old(self).next_generation
                    < u64::MAX {
                    old(self).next_generation + 1
                } else {
                    old(self).next_generation as int
                })
                &&& (old(self).is_member(name@) ==> final(self).is_player(name@) == old(self).is_player(name@))
                &&& (!old(self).is_member(name@) && old(self).stage == RoomStage::Joining
                    ==> final(self).is_player(name@))
                &&& (!old(self).is_member(name@) && (old(self).stage == RoomStage::Voting || old(self).stage == RoomStage::Results) ==> final(self).is_observer(name@))
            },
            // Reconnecting a seated player only flips the connection flag
            // and evicts the superseded session.
            (r is Some && old(self).is_player(name@)) ==> {
                &&& value_of(final(self).players@, name@) == (PlayerInfo {
                    connected: true,
                    ..value_of(old(self).players@, name@)
                })
                &&& (forall|x: Seq<char>|
                    x != name@ && old(self).is_player(x) ==> value_of(final(self).players@, x)
                        == value_of(old(self).players@, x))
                &&& final(self).stage == old(self).stage
                &&& final(self).player_hand == old(self).player_hand
                &&& final(self).deck == old(self).deck
                &&& final(out)@.len() > old(out)@.len()
                &&& (final(out)@[old(out)@.len() as int] matches Outbound::Direct {
                    name: n,
                    msg: m,
                } && n@ == name@ && (m matches ServerMsg::LeftRoom { reason } && reason@
                    == "You signed in from another session"@))
            },
            // The same holds of a reconnecting observer.
            (r is Some && !old(self).is_player(name@) && old(self).is_observer(name@)) ==> {
                &&& value_of(final(self).observers@, name@) == (ObserverInfo {
                    connected: true,
                    ..value_of(old(self).observers@, name@)
                })
                &&& final(self).stage == old(self).stage
                &&& final(self).player_hand == old(self).player_hand
                &&& final(self).deck == old(self).deck
                &&& final(out)@.len() > old(out)@.len()
                &&& (final(out)@[old(out)@.len() as int] matches Outbound::Direct {
                    name: n,
                    msg: m,
                } && n@ == name@ && (m matches ServerMsg::LeftRoom { reason } && reason@
                    == "You signed in from another session"@))
            },
            // A fresh lobby join seats a ready, connected, pointless player.
            (r is Some && !old(self).is_member(name@) && old(self).stage == RoomStage::Joining)
                ==> value_of(final(self).players@, name@) == (PlayerInfo {
                connected: true,
                points: 0,
                ready: true,
            }),
            // A midgame join deals a full hand (or drains the deck) and
            // appends the name to the turn order.
            (r is Some && !old(self).is_member(name@) && (old(self).stage
                == RoomStage::ActiveChooses || old(self).stage == RoomStage::PlayersChoose || old(self).stage == RoomStage::Paused)) ==> {
                &&& has_key(final(self).player_hand@, name@)
                &&& (value_of(final(self).player_hand@, name@)@.len() == crate::room::HAND_SIZE
                    || final(self).deck@.len() == 0)
                &&& final(self).player_order@.len() == old(self).player_order@.len() + 1
                &&& str_in(final(self).player_order@, name@)
                &&& (forall|i: int|
                    0 <= i < old(self).player_order@.len() ==> final(self).player_order@[i] == old(self).player_order@[i])
            },
            // On success everyone hears the join and the joiner gets its
            // own copy of the snapshot.
            r is Some ==> (exists|j: int|
                old(out)@.len() <= j && j + 1 < final(out)@.len() && (#[trigger] final(out)@[j]
                    matches Outbound::Broadcast(m) && final(self).is_room_state_of(m)) && (
                final(out)@[j + 1] matches Outbound::ToJoiner(m2) && final(self).is_room_state_of(
                    m2,
                ))),
            // ... followed by the stage-private view when the stage owes
            // the member one.
            (r is Some && (final(self).stage == RoomStage::Voting || final(self).stage
                == RoomStage::Results || final(self).stage == RoomStage::End || ((final(self).stage
                == RoomStage::ActiveChooses || final(self).stage == RoomStage::PlayersChoose)
                && has_key(final(self).player_hand@, name@)))) ==> (final(out)@.last()
                matches Outbound::ToJoiner(m3) && final(self).stage_msg_of(name@, m3)),
            // The first name through the lobby door becomes the creator
            // and is seated among the moderators; a creator, once set,
            // never changes.
            (r is Some && !old(self).is_member(name@) && old(self).stage == RoomStage::Joining
                && old(self).creator is None) ==> (final(self).creator matches Some(c) && c@
                == name@ && final(self).moderator_is(name@)),
            old(self).creator is Some ==> final(self).creator == old(self).creator,
            // Each refusal answers the joiner with the matching error.
            name@.len() == 0 ==> old(self).join_refused_with(
                old(out)@,
                final(out)@,
                "Name cannot be empty"@,
            ),
            (name@.len() > MAX_NAME_CHARS) ==> old(self).join_refused_with(
                old(out)@,
                final(out)@,
                "Name too long"@,
            ),
            (0 < name@.len() <= MAX_NAME_CHARS && is_blank_spec(token@)) ==> old(self).join_refused_with(old(out)@, final(out)@, "Token cannot be empty"@),
            (0 < name@.len() <= MAX_NAME_CHARS && !is_blank_spec(token@) && !old(self).token_ok(
                name@,
                token@,
            )) ==> old(self).join_refused_with(old(out)@, final(out)@, "Name already taken"@),
            (0 < name@.len() <= MAX_NAME_CHARS && !is_blank_spec(token@) && old(self).token_ok(
                name@,
                token@,
            ) && !old(self).is_member(name@) && old(self).players@.len() + old(self).observers@.len() >= old(self).max_members) ==> old(self).join_refused_with(
                old(out)@,
                final(out)@,
                "Room is full"@,
            ),
            (0 < name@.len() <= MAX_NAME_CHARS && !is_blank_spec(token@) && old(self).token_ok(
                name@,
                token@,
            ) && !old(self).is_member(name@) && old(self).players@.len() + old(self).observers@.len() < old(self).max_members && old(self).stage == RoomStage::End) ==> old(self).join_refused_with(old(out)@, final(out)@, "Game has already ended"@),
            (0 < name@.len() <= MAX_NAME_CHARS && !is_blank_spec(token@) && old(self).token_ok(
                name@,
                token@,
            ) && !old(self).is_member(name@) && old(self).players@.len() + old(self).observers@.len() < old(self).max_members && old(self).stage == RoomStage::Joining && old(self).players@.len() >= LOBBY_PLAYER_CAP) ==> old(self).join_refused_with(
                old(out)@,
                final(out)@,
                "Room is full"@,
            ),
            (0 < name@.len() <= MAX_NAME_CHARS && !is_blank_spec(token@) && old(self).token_ok(
                name@,
                token@,
            ) && !old(self).is_member(name@) && old(self).players@.len() + old(self).observers@.len() < old(self).max_members && old(self).stage != RoomStage::Joining && old(self).stage != RoomStage::End && !old(self).allow_new_players_midgame) ==> old(self).join_refused_with(old(out)@, final(out)@, "New players are disabled for this game"@),
    {
        if name.unicode_len() == 0 {
            out.push(Outbound::ToJoiner(ServerMsg::ErrorMsg(msg_name_empty())));
            return None;
        }
        if name.unicode_len() > MAX_NAME_CHARS {
            out.push(Outbound::ToJoiner(ServerMsg::ErrorMsg(msg_name_long())));
            return None;
        }
        if is_blank(token) {
            out.push(Outbound::ToJoiner(ServerMsg::ErrorMsg(msg_token_empty())));
            return None;
        }
        if !self.has_valid_token_for_name(name, token) {
            out.push(Outbound::ToJoiner(ServerMsg::ErrorMsg(msg_name_taken())));
            return None;
        }
        let is_player_already = has_entry(&self.players, name);
        let is_observer_already = !is_player_already && has_entry(&self.observers, name);
        if is_player_already {
            let info = match read_entry(&self.players, name) {
                Some(p) => *p,
                None => {
                    proof {
                        assert(false);
                    }
                    PlayerInfo { connected: false, points: 0, ready: false }
                },
            };
            put_entry(&mut self.players, name, PlayerInfo { connected: true, ..info });
            out.push(
                Outbound::Direct {
                    name: name.to_owned(),
                    msg: ServerMsg::LeftRoom { reason: msg_other_session() },
                },
            );
            proof {
                crate::tbl::lemma_same_keys(old(self).players@, self.players@);
                assert forall|i: int| 0 <= i < self.moderators@.len() implies self.is_member(
                    #[trigger] str_at(self.moderators@, i),
                ) by {
                    assert(old(self).is_member(str_at(self.moderators@, i)));
                }
                assert(self.wf_base());
                assert(self.wf_coherent());
            }
        } else if is_observer_already {
            let info = match read_entry(&self.observers, name) {
                Some(o) => *o,
                None => {
                    proof {
                        assert(false);
                    }
                    ObserverInfo {
                        connected: false,
                        points: 0,
                        join_requested: false,
                        auto_join_on_next_round: false,
                    }
                },
            };
            put_entry(&mut self.observers, name, ObserverInfo { connected: true, ..info });
            out.push(
                Outbound::Direct {
                    name: name.to_owned(),
                    msg: ServerMsg::LeftRoom { reason: msg_other_session() },
                },
            );
            proof {
                crate::tbl::lemma_same_keys(old(self).observers@, self.observers@);
                assert forall|i: int| 0 <= i < self.moderators@.len() implies self.is_member(
                    #[trigger] str_at(self.moderators@, i),
                ) by {
                    assert(old(self).is_member(str_at(self.moderators@, i)));
                }
                assert(self.wf_base());
                assert(self.wf_coherent());
            }
        } else {
            if self.total_members() >= self.max_members {
                out.push(Outbound::ToJoiner(ServerMsg::ErrorMsg(msg_room_full())));
                return None;
            }
            match self.stage {
                RoomStage::End => {
                    out.push(Outbound::ToJoiner(ServerMsg::ErrorMsg(msg_game_over())));
                    return None;
                },
                RoomStage::Joining => {
                    if self.players.len() >= LOBBY_PLAYER_CAP {
                        out.push(Outbound::ToJoiner(ServerMsg::ErrorMsg(msg_room_full())));
                        return None;
                    }
                    if self.creator.is_none() {
                        self.creator = Some(name.to_owned());
                    }
                    put_entry(
                        &mut self.players,
                        name,
                        PlayerInfo { connected: true, points: 0, ready: true },
                    );
                    if self.is_creator(name) {
                        proof {
                            assert(self.is_member(name@));
                        }
                        insert_str(&mut self.moderators, name);
                    }
                    proof {
                        assert forall|x: Seq<char>| !(#[trigger] has_key(self.players@, x)
                            && has_key(self.observers@, x)) by {
                            if has_key(self.players@, x) && x != name@ {
                                assert(has_key(old(self).players@, x));
                            }
                        }
                        assert forall|i: int|
                            0 <= i < self.moderators@.len() implies self.is_member(
                            #[trigger] str_at(self.moderators@, i),
                        ) by {
                            let x = str_at(self.moderators@, i);
                            assert(str_in(self.moderators@, x));
                            if x != name@ {
                                assert(str_in(old(self).moderators@, x));
                                let w = choose|w: int|
                                    0 <= w < old(self).moderators@.len() && #[trigger] str_at(
                                        old(self).moderators@,
                                        w,
                                    ) == x;
                                assert(old(self).is_member(x));
                            }
                        }
                        assert forall|i2: int|
                            0 <= i2 < self.player_order@.len() implies self.is_player(
                            #[trigger] str_at(self.player_order@, i2),
                        ) by {
                            assert(old(self).is_player(str_at(self.player_order@, i2)));
                        }
                        assert(self.wf_base());
                        assert(self.wf_coherent());
                    }
                },
                RoomStage::Voting => {
                    if !self.can_join_midgame() {
                        out.push(Outbound::ToJoiner(ServerMsg::ErrorMsg(msg_midgame())));
                        return None;
                    }
                    self.admit_observer(name);
                },
                RoomStage::Results => {
                    if !self.can_join_midgame() {
                        out.push(Outbound::ToJoiner(ServerMsg::ErrorMsg(msg_midgame())));
                        return None;
                    }
                    self.admit_observer(name);
                },
                _ => {
                    if !self.can_join_midgame() {
                        out.push(Outbound::ToJoiner(ServerMsg::ErrorMsg(msg_midgame())));
                        return None;
                    }
                    self.admit_midgame_player(name);
                },
            }
        }
        put_entry(&mut self.name_tokens, name, token.to_owned());
        let generation = self.next_connection_generation();
        let ghost gens0 = self.connection_generation@;
        put_entry(&mut self.connection_generation, name, generation);
        proof {
            assert forall|i: int| 0 <= i < self.connection_generation@.len() implies (
            #[trigger] self.connection_generation@[i]).1 <= self.next_generation by {
                if has_key(gens0, name@) {
                    let idx = index_of_key(gens0, name@);
                    if i != idx {
                        assert(self.connection_generation@[i] == gens0[i]);
                    }
                } else {
                    if i < gens0.len() {
                        assert(self.connection_generation@[i] == gens0[i]);
                    }
                }
            }
            assert(self.wf_base());
            assert(self.wf_coherent());
        }
        if self.is_creator(name) {
            proof {
                assert(self.is_member(name@));
            }
            insert_str(&mut self.moderators, name);
            proof {
                assert forall|i: int| 0 <= i < self.moderators@.len() implies self.is_member(
                    #[trigger] str_at(self.moderators@, i),
                ) by {
                    assert(str_in(self.moderators@, str_at(self.moderators@, i)));
                }
            }
        }
        self.clean_moderators();
        let now_s = crate::sys::get_time_s();
        self.maybe_promote_moderator(now_s);
        let ghost bpos = out@.len();
        let state_msg = self.room_state();
        out.push(Outbound::Broadcast(state_msg));
        let joiner_state = self.room_state();
        out.push(Outbound::ToJoiner(joiner_state));
        match self.get_msg(Some(name)) {
            Some(m) => {
                out.push(Outbound::ToJoiner(m));
            },
            None => {
                proof {
                    if self.stage == RoomStage::Voting || self.stage == RoomStage::Results
                        || self.stage == RoomStage::End {
                        assert(false);
                    }
                }
            },
        }
        proof {
            assert(out@[bpos as int] matches Outbound::Broadcast(m) && self.is_room_state_of(m));
            assert(out@[bpos as int + 1] matches Outbound::ToJoiner(m2) && self.is_room_state_of(m2));
        }
        Some(generation)
    }

    /// Seat a new name as an observer who joins the next round.
    fn admit_observer(&mut self, name: &str)
        requires
            old(self).wf(),
            !old(self).is_member(name@),
            old(self).players@.len() + old(self).observers@.len() < old(self).max_members,
        ensures
            final(self).wf(),
            *final(self) == (Room {
                observers: final(self).observers,
                moderators: final(self).moderators,
                ..*old(self)
            }),
            final(self).is_observer(name@),
            forall|x: Seq<char>|
                x != name@ ==> final(self).is_observer(x) == old(self).is_observer(x),
    {
        put_entry(
            &mut self.observers,
            name,
            ObserverInfo {
                connected: true,
                points: 0,
                join_requested: false,
                auto_join_on_next_round: true,
            },
        );
        if self.is_creator(name) {
            proof {
                assert(self.is_member(name@));
            }
            insert_str(&mut self.moderators, name);
        }
        proof {
            assert forall|x: Seq<char>| !(#[trigger] has_key(self.players@, x) && has_key(
                self.observers@,
                x,
            )) by {
                if has_key(self.players@, x) && x == name@ {
                    assert(old(self).is_member(name@));
                }
                if has_key(self.players@, x) && x != name@ {
                    assert(!has_key(old(self).observers@, x));
                }
            }
            assert forall|i: int| 0 <= i < self.moderators@.len() implies self.is_member(
                #[trigger] str_at(self.moderators@, i),
            ) by {
                let x = str_at(self.moderators@, i);
                assert(str_in(self.moderators@, x));
                if x != name@ {
                    assert(str_in(old(self).moderators@, x));
                    let w = choose|w: int|
                        0 <= w < old(self).moderators@.len() && #[trigger] str_at(
                            old(self).moderators@,
                            w,
                        ) == x;
                    assert(old(self).is_member(x));
                }
            }
            assert(self.wf_base());
            assert(self.wf_coherent());
        }
    }

    /// Seat a new name as a player in the middle of a game: six cards
    /// are dealt (refilling the deck if it empties), and the name joins
    /// the end of the turn order.
    fn admit_midgame_player(&mut self, name: &str)
        requires
            old(self).wf(),
            !old(self).is_member(name@),
            old(self).players@.len() + old(self).observers@.len() < old(self).max_members,
            old(self).stage == RoomStage::ActiveChooses || old(self).stage
                == RoomStage::PlayersChoose || old(self).stage == RoomStage::Paused,
        ensures
            final(self).wf(),
            final(self).is_player(name@),
            final(self).stage == old(self).stage,
            *final(self) == (Room {
                players: final(self).players,
                player_hand: final(self).player_hand,
                player_order: final(self).player_order,
                moderators: final(self).moderators,
                deck: final(self).deck,
                discard_pile: final(self).discard_pile,
                deck_refill_count: final(self).deck_refill_count,
                ..*old(self)
            }),
            forall|x: Seq<char>|
                x != name@ ==> final(self).is_player(x) == old(self).is_player(x),
            forall|x: Seq<char>| final(self).is_observer(x) == old(self).is_observer(x),
            value_of(final(self).players@, name@) == (PlayerInfo {
                connected: true,
                points: 0,
                ready: false,
            }),
            has_key(final(self).player_hand@, name@),
            value_of(final(self).player_hand@, name@)@.len() == crate::room::HAND_SIZE || final(self).deck@.len() == 0,
            final(self).player_order@.len() == old(self).player_order@.len() + 1,
            str_in(final(self).player_order@, name@),
            forall|i: int|
                0 <= i < old(self).player_order@.len() ==> final(self).player_order@[i] == old(self).player_order@[i],
    {
        broadcast use vstd::multiset::group_multiset_axioms, vstd::seq_lib::group_to_multiset_ensures;

        put_entry(
            &mut self.players,
            name,
            PlayerInfo { connected: true, points: 0, ready: false },
        );
        let ghost s1 = *self;
        proof {
            assert forall|x: Seq<char>| !(#[trigger] has_key(self.players@, x) && has_key(
                self.observers@,
                x,
            )) by {
                if has_key(self.players@, x) && x != name@ {
                    assert(has_key(old(self).players@, x));
                }
                if has_key(self.players@, x) && x == name@ {
                    assert(!old(self).is_member(name@));
                }
            }
        }
        let mut h: Vec<String> = Vec::new();
        let mut deck_ran_dry = false;
        let ghost deck0 = self.deck@;
        let ghost disc0 = self.discard_pile@;
        #[verifier::loop_isolation(false)]
        while h.len() < crate::room::HAND_SIZE && !deck_ran_dry
            invariant
                deck_ran_dry ==> self.deck@.len() == 0,
                h@.len() <= crate::room::HAND_SIZE,
                *self == (Room {
                    deck: self.deck,
                    discard_pile: self.discard_pile,
                    deck_refill_count: self.deck_refill_count,
                    ..s1
                }),
                card_bag(self.deck@).add(card_bag(self.discard_pile@)).add(card_bag(h@))
                    =~= card_bag(deck0).add(card_bag(disc0)),
            decreases crate::room::HAND_SIZE - h@.len(), (if deck_ran_dry {
                0int
            } else {
                1int
            }),
        {
            if self.deck.len() == 0 {
                proof {
                    assert(self.placed_cards().count(seq![' ']) >= 0);
                    assert forall|c: Seq<char>|
                        self.placed_cards().add(card_bag(h@)).count(c) == s1.placed_cards().count(
                            c,
                        ) by {
                        assert(card_bag(self.deck@).add(card_bag(self.discard_pile@)).add(
                            card_bag(h@),
                        ).count(c) == card_bag(deck0).add(card_bag(disc0)).count(c));
                    }
                    assert(self.placed_cards() == self.base_bag() || card_bag(h@).len() > 0 || (
                    self.placed_cards() =~= self.base_bag()));
                }
                self.refill_for_deal();
            }
            let ghost dpre = self.deck@;
            match self.deck.pop() {
                Some(c) => {
                    let ghost hmid = h@;
                    proof {
                        lemma_card_bag_drop_last(dpre);
                        assert(dpre.drop_last() =~= self.deck@);
                        lemma_card_bag_push(hmid, c);
                    }
                    h.push(c);
                    proof {
                        assert forall|cc: Seq<char>|
                            card_bag(self.deck@).add(card_bag(self.discard_pile@)).add(
                                card_bag(h@),
                            ).count(cc) == card_bag(deck0).add(card_bag(disc0)).count(cc) by {
                            assert(card_bag(dpre).add(card_bag(self.discard_pile@)).add(
                                card_bag(hmid),
                            ).count(cc) == card_bag(deck0).add(card_bag(disc0)).count(cc));
                            assert(card_bag(dpre) == card_bag(self.deck@).insert(c@));
                            assert(card_bag(h@) == card_bag(hmid).insert(c@));
                        }
                        assert(card_bag(self.deck@).add(card_bag(self.discard_pile@)).add(
                            card_bag(h@),
                        ) =~= card_bag(deck0).add(card_bag(disc0)));
                    }
                },
                None => {
                    deck_ran_dry = true;
                },
            }
        }
        let ghost hands0 = self.player_hand@;
        let ghost hfin = h@;
        put_entry(&mut self.player_hand, name, h);
        proof {
            assert(!has_key(hands0, name@)) by {
                if has_key(hands0, name@) {
                    assert(has_key(s1.player_hand@, name@));
                    assert(has_key(old(self).player_hand@, name@));
                    assert(old(self).is_player(name@));
                }
            }
            assert(self.player_hand@.drop_last() == hands0);
            assert(hands_bag(self.player_hand@) == hands_bag(hands0).add(card_bag(hfin))) by {
                assert(self.player_hand@.last() == self.player_hand@[hands0.len() as int]);
            }
            assert forall|c: Seq<char>|
                self.placed_cards().count(c) == old(self).placed_cards().count(c) by {
                assert(card_bag(self.deck@).add(card_bag(self.discard_pile@)).add(
                    card_bag(hfin),
                ).count(c) == card_bag(deck0).add(card_bag(disc0)).count(c));
            }
            assert(self.placed_cards() =~= old(self).placed_cards());
        }
        proof {
            assert(!str_in(self.player_order@, name@)) by {
                if str_in(self.player_order@, name@) {
                    let w = choose|w: int|
                        0 <= w < old(self).player_order@.len() && #[trigger] str_at(
                            old(self).player_order@,
                            w,
                        ) == name@;
                    assert(old(self).is_player(name@));
                }
            }
        }
        insert_str(&mut self.player_order, name);
        if self.is_creator(name) {
            proof {
                assert(self.is_member(name@));
            }
            insert_str(&mut self.moderators, name);
        }
        proof {
            assert forall|i2: int| 0 <= i2 < self.player_order@.len() implies self.is_player(
                #[trigger] str_at(self.player_order@, i2),
            ) by {
                assert(str_in(self.player_order@, str_at(self.player_order@, i2)));
                if str_at(self.player_order@, i2) != name@ {
                    assert(str_in(old(self).player_order@, str_at(self.player_order@, i2)));
                    let w = choose|w: int|
                        0 <= w < old(self).player_order@.len() && #[trigger] str_at(
                            old(self).player_order@,
                            w,
                        ) == str_at(self.player_order@, i2);
                }
            }
            assert forall|x: Seq<char>| #[trigger] has_key(self.players@, x) implies str_in(
                self.player_order@,
                x,
            ) by {
                if x != name@ {
                    assert(has_key(old(self).players@, x));
                }
            }
            assert forall|x: Seq<char>| #[trigger] has_key(self.player_hand@, x) implies
                self.is_player(x) by {
                if x != name@ {
                    assert(has_key(old(self).player_hand@, x));
                }
            }
            assert forall|i2: int|
                0 <= i2 < self.player_hand@.len() implies (
            #[trigger] self.player_hand@[i2]).1@.len() <= crate::room::HAND_SIZE by {
                if i2 < hands0.len() {
                    assert(self.player_hand@[i2] == hands0[i2]);
                } else {
                    assert(self.player_hand@[i2].1@ == hfin);
                }
            }
            assert forall|i2: int| 0 <= i2 < self.moderators@.len() implies self.is_member(
                #[trigger] str_at(self.moderators@, i2),
            ) by {
                let x = str_at(self.moderators@, i2);
                assert(str_in(self.moderators@, x));
                if x != name@ {
                    assert(str_in(old(self).moderators@, x));
                    let w = choose|w: int|
                        0 <= w < old(self).moderators@.len() && #[trigger] str_at(
                            old(self).moderators@,
                            w,
                        ) == x;
                    assert(old(self).is_member(x));
                }
            }
            assert forall|x: Seq<char>| !(#[trigger] has_key(self.players@, x) && has_key(
                self.observers@,
                x,
            )) by {
                if has_key(self.players@, x) && x != name@ {
                    assert(has_key(old(self).players@, x));
                    assert(!has_key(old(self).observers@, x));
                }
                if has_key(self.players@, x) && x == name@ {
                    assert(!old(self).is_member(name@));
                }
            }
            assert(self.wf_tables());
            assert(self.wf_order());
            assert(self.wf_members());
            assert(self.wf_cards());
            assert(self.wf_submissions());
            assert(self.wf_votes());
            assert(self.wf_generations());
            if self.stage == RoomStage::PlayersChoose {
                assert forall|i2: int|
                    0 <= i2 < self.player_to_current_card@.len() implies has_key(
                    self.player_hand@,
                    #[trigger] key_at(self.player_to_current_card@, i2),
                ) && str_in(
                    value_of(self.player_hand@, key_at(self.player_to_current_card@, i2))@,
                    self.player_to_current_card@[i2].1@,
                ) by {
                    let q = key_at(self.player_to_current_card@, i2);
                    assert(has_key(old(self).player_to_current_card@, q)) by {
                        assert(key_at(old(self).player_to_current_card@, i2) == q);
                    }
                    assert(old(self).is_player(q));
                    assert(q != name@);
                    assert(value_of(self.player_hand@, q) == value_of(old(self).player_hand@, q));
                }
            }
            assert(self.wf_base());
            assert(self.stage_coherent()) by {
                if self.stage == RoomStage::PlayersChoose {
                    assert(old(self).active_name() == self.active_name()) by {
                        assert(self.player_order@[self.active_player as int] == old(self).player_order@[self.active_player as int]);
                    }
                }
            }
            assert(self.wf_coherent());
        }
    }

    /// Refill the deck for a mid-game deal when it has run empty.
    fn refill_for_deal(&mut self)
        requires
            unique_keys(old(self).player_hand@),
        ensures
            *final(self) == (Room {
                deck: final(self).deck,
                discard_pile: final(self).discard_pile,
                deck_refill_count: final(self).deck_refill_count,
                ..*old(self)
            }),
            card_bag(final(self).deck@).add(card_bag(final(self).discard_pile@)) =~= card_bag(
                old(self).deck@,
            ).add(card_bag(old(self).discard_pile@)),
    {
        broadcast use vstd::multiset::group_multiset_axioms, vstd::seq_lib::group_to_multiset_ensures;

        let ghost d0 = self.deck@;
        let ghost p0 = self.discard_pile@;
        if self.deck.len() < self.player_order.len() {
            match self.win_condition {
                crate::msgs::WinCondition::CardsFinish => {
                    return ;
                },
                _ => {
                },
            }
            if self.discard_pile.len() > 0 {
                crate::sys::shuffle_strings(&mut self.discard_pile);
                let ghost p1 = self.discard_pile@;
                self.deck.append(&mut self.discard_pile);
                proof {
                    crate::cards::lemma_card_bag_concat(d0, p1);
                    assert(card_bag(self.discard_pile@) =~= vstd::multiset::Multiset::empty())
                        by {
                        assert(crate::names::strs_of(self.discard_pile@) =~= Seq::<
                            Seq<char>,
                        >::empty());
                        assert(Seq::<Seq<char>>::empty().to_multiset() =~= vstd::multiset::Multiset::<
                            Seq<char>,
                        >::empty());
                    }
                    assert(card_bag(self.deck@).add(card_bag(self.discard_pile@)) =~= card_bag(
                        d0,
                    ).add(card_bag(p0)));
                }
            } else {
                crate::sys::shuffle_strings(&mut self.deck);
                proof {
                    assert(card_bag(self.deck@).add(card_bag(self.discard_pile@)) =~= card_bag(
                        d0,
                    ).add(card_bag(p0)));
                }
            }
            self.deck_refill_count = self.deck_refill_count.saturating_add(1);
        }
    }

    /// Close one session: a superseded generation changes nothing; a
    /// lobby member disappears entirely; anyone else is only marked
    /// disconnected.  A deliberately removed name is a no-op beyond
    /// clearing its marker.
    pub fn handle_disconnect(
        &mut self,
        name: &str,
        generation: u64,
        now_s: u64,
        out: &mut Vec<Outbound>,
    )
        requires
            old(self).wf(),
        ensures
            final(self).wf(),
            forall|i: int| 0 <= i < old(out)@.len() ==> final(out)@[i] == old(out)@[i],
            !(has_key(old(self).connection_generation@, name@) && value_of(
                old(self).connection_generation@,
                name@,
            ) == generation) ==> *final(self) == *old(self) && final(out)@ == old(out)@,
            (has_key(old(self).connection_generation@, name@) && value_of(
                old(self).connection_generation@,
                name@,
            ) == generation) ==> {
                &&& final(out)@.len() == old(out)@.len() + 1
                &&& (final(out)@.last() matches Outbound::Broadcast(m) && final(self).is_room_state_of(m))
                &&& final(self).stage == old(self).stage
                &&& (str_in(old(self).removed_players@, name@) ==> {
                    // A deliberately removed name only clears its marker.
                    &&& !str_in(final(self).removed_players@, name@)
                    &&& (forall|x: Seq<char>|
                        x != name@ ==> str_in(final(self).removed_players@, x) == str_in(
                            old(self).removed_players@,
                            x,
                        ))
                    &&& final(self).players@ == old(self).players@
                    &&& final(self).observers@ == old(self).observers@
                })
                &&& (!str_in(old(self).removed_players@, name@) && old(self).stage
                    == RoomStage::Joining ==> {
                    // A lobby member who vanishes is removed outright.
                    &&& !final(self).is_member(name@)
                    &&& !has_key(final(self).name_tokens@, name@)
                    &&& !has_key(final(self).connection_generation@, name@)
                    &&& (forall|x: Seq<char>|
                        x != name@ ==> final(self).is_player(x) == old(self).is_player(x))
                    &&& (forall|x: Seq<char>|
                        x != name@ ==> final(self).is_observer(x) == old(self).is_observer(x))
                })
                &&& (!str_in(old(self).removed_players@, name@) && old(self).stage
                    != RoomStage::Joining ==> {
                    // Anyone else is only marked disconnected.
                    &&& (forall|x: Seq<char>|
                        final(self).is_player(x) == old(self).is_player(x))
                    &&& (forall|x: Seq<char>|
                        final(self).is_observer(x) == old(self).is_observer(x))
                    &&& (old(self).is_player(name@) ==> value_of(final(self).players@, name@)
                        == (PlayerInfo {
                        connected: false,
                        ..value_of(old(self).players@, name@)
                    }))
                    &&& (!old(self).is_player(name@) && old(self).is_observer(name@)
                        ==> value_of(final(self).observers@, name@) == (ObserverInfo {
                        connected: false,
                        ..value_of(old(self).observers@, name@)
                    }))
                    &&& (forall|x: Seq<char>|
                        x != name@ && old(self).is_player(x) ==> value_of(
                            final(self).players@,
                            x,
                        ) == value_of(old(self).players@, x))
                    &&& (forall|x: Seq<char>|
                        x != name@ && old(self).is_observer(x) ==> value_of(
                            final(self).observers@,
                            x,
                        ) == value_of(old(self).observers@, x))
                })
            },
    {
        let current = match read_entry(&self.connection_generation, name) {
            Some(g) => *g == generation,
            None => false,
        };
        if !current {
            return ;
        }
        if crate::names::contains_str(&self.removed_players, name) {
            remove_str(&mut self.removed_players, name);
        } else {
            match self.stage {
                RoomStage::Joining => {
                    if has_entry(&self.players, name) {
                        self.remove_player_for_disconnect(name);
                    } else {
                        remove_entry(&mut self.observers, name);
                        remove_str(&mut self.moderators, name);
                        remove_entry(&mut self.name_tokens, name);
                        let ghost gens0 = self.connection_generation@;
                        remove_entry(&mut self.connection_generation, name);
                        proof {
                            lemma_gens_still_bounded(gens0, self.connection_generation@, name@, self.next_generation as int);
                            assert forall|i: int|
                                0 <= i < self.moderators@.len() implies self.is_member(
                                #[trigger] str_at(self.moderators@, i),
                            ) by {
                                let x = str_at(self.moderators@, i);
                                assert(str_in(self.moderators@, x));
                                assert(str_in(old(self).moderators@, x) && x != name@);
                                let w = choose|w: int|
                                    0 <= w < old(self).moderators@.len() && #[trigger] str_at(
                                        old(self).moderators@,
                                        w,
                                    ) == x;
                                assert(old(self).is_member(x));
                            }
                            assert(self.wf_base());
                            assert(self.wf_coherent());
                        }
                    }
                },
                _ => {
                    if has_entry(&self.players, name) {
                        let info = match read_entry(&self.players, name) {
                            Some(p) => *p,
                            None => {
                                proof {
                                    assert(false);
                                }
                                PlayerInfo { connected: false, points: 0, ready: false }
                            },
                        };
                        put_entry(
                            &mut self.players,
                            name,
                            PlayerInfo { connected: false, ..info },
                        );
                        proof {
                            crate::tbl::lemma_same_keys(old(self).players@, self.players@);
                            assert(self.wf_base());
                            assert(self.wf_coherent());
                        }
                    } else if has_entry(&self.observers, name) {
                        let info = match read_entry(&self.observers, name) {
                            Some(o) => *o,
                            None => {
                                proof {
                                    assert(false);
                                }
                                ObserverInfo {
                                    connected: false,
                                    points: 0,
                                    join_requested: false,
                                    auto_join_on_next_round: false,
                                }
                            },
                        };
                        put_entry(
                            &mut self.observers,
                            name,
                            ObserverInfo { connected: false, ..info },
                        );
                        proof {
                            crate::tbl::lemma_same_keys(old(self).observers@, self.observers@);
                            assert(self.wf_base());
                            assert(self.wf_coherent());
                        }
                    }
                },
            }
        }
        self.clean_moderators();
        self.maybe_promote_moderator(now_s);
        let state_msg = self.room_state();
        out.push(Outbound::Broadcast(state_msg));
    }

    /// Remove a lobby member who vanished without a word: like an
    /// explicit leave, but the name is not marked as removed and the
    /// creator keeps their seat name.
    fn remove_player_for_disconnect(&mut self, name: &str)
        requires
            old(self).wf(),
            old(self).stage == RoomStage::Joining,
            old(self).is_player(name@),
        ensures
            final(self).wf(),
            !final(self).is_member(name@),
            !has_key(final(self).name_tokens@, name@),
            !has_key(final(self).connection_generation@, name@),
            final(self).stage == old(self).stage,
            final(self).removed_players@ == old(self).removed_players@,
            forall|x: Seq<char>|
                x != name@ ==> final(self).is_player(x) == old(self).is_player(x),
            forall|x: Seq<char>|
                x != name@ ==> final(self).is_observer(x) == old(self).is_observer(x),
    {
        self.remove_player_core(name);
        let ghost mid = *self;
        remove_str(&mut self.moderators, name);
        remove_entry(&mut self.name_tokens, name);
        let ghost gens0 = self.connection_generation@;
        remove_entry(&mut self.connection_generation, name);
        proof {
            lemma_gens_still_bounded(gens0, self.connection_generation@, name@, self.next_generation as int);
            assert forall|i: int| 0 <= i < self.moderators@.len() implies self.is_member(
                #[trigger] str_at(self.moderators@, i),
            ) by {
                let x = str_at(self.moderators@, i);
                assert(str_in(self.moderators@, x));
                assert(str_in(old(self).moderators@, x) && x != name@);
                let w = choose|w: int|
                    0 <= w < old(self).moderators@.len() && #[trigger] str_at(
                        old(self).moderators@,
                        w,
                    ) == x;
                assert(old(self).is_member(x));
            }
            assert forall|x: Seq<char>| !(#[trigger] has_key(self.players@, x) && has_key(
                self.observers@,
                x,
            )) by {
                if has_key(self.players@, x) {
                    assert(self.players@ == mid.players@);
                    assert(mid.is_player(x));
                    assert(x != name@);
                    assert(mid.is_player(x) == old(self).is_player(x));
                    assert(has_key(old(self).players@, x));
                }
            }
            let cr = self.creator;
            match cr {
                Some(c) => {
                    if self.is_member(c@) {
                        assert(c@ != name@);
                        assert(old(self).is_member(c@));
                        assert(str_in(old(self).moderators@, c@));
                    }
                },
                None => {
                },
            }
            assert(self.wf_base());
            assert(self.wf_coherent());
        }
    }

    /// Run the periodic per-room maintenance: host migration when no
    /// moderator has been connected for too long.
    pub fn run_maintenance(&mut self, now_s: u64, out: &mut Vec<Outbound>)
        requires
            old(self).wf(),
        ensures
            final(self).wf(),
            forall|i: int| 0 <= i < old(out)@.len() ==> final(out)@[i] == old(out)@[i],
            ((old(self).no_connected_moderator_since_s matches Some(t) && now_s >= t
                + crate::room::MODERATOR_ABSENCE_PROMOTION_DELAY_S) && (exists|x: Seq<char>|
                old(self).is_member(x) && old(self).member_connected(x))) ==> final(self).has_connected_moderator_spec(),
    {
        if self.maybe_promote_moderator(now_s) {
            let state_msg = self.room_state();
            out.push(Outbound::Broadcast(state_msg));
        }
    }
}

/// Removing one generation entry keeps the rest below the counter.
proof fn lemma_gens_still_bounded(
    gens0: Seq<(String, u64)>,
    gens1: Seq<(String, u64)>,
    name: Seq<char>,
    bound: int,
)
    requires
        unique_keys(gens0),
        forall|i: int| 0 <= i < gens0.len() ==> (#[trigger] gens0[i]).1 <= bound,
        gens1 == gens0 || (has_key(gens0, name) && gens1 == gens0.remove(
            index_of_key(gens0, name),
        )),
    ensures
        forall|i: int| 0 <= i < gens1.len() ==> (#[trigger] gens1[i]).1 <= bound,
{
    if gens1 != gens0 {
        let idx = index_of_key(gens0, name);
        lemma_key_index_valid(gens0, name);
        assert forall|i: int| 0 <= i < gens1.len() implies (#[trigger] gens1[i]).1 <= bound by {
            let oi = if i < idx {
                i
            } else {
                i + 1
            };
            assert(gens1[i] == gens0[oi]);
        }
    }
}

fn msg_name_empty() -> (r: String)
    ensures
        r@ == "Name cannot be empty"@,
{
    let s: &str = "Name cannot be empty";
    s.to_owned()
}

fn msg_name_long() -> (r: String)
    ensures
        r@ == "Name too long"@,
{
    let s: &str = "Name too long";
    s.to_owned()
}

fn msg_token_empty() -> (r: String)
    ensures
        r@ == "Token cannot be empty"@,
{
    let s: &str = "Token cannot be empty";
    s.to_owned()
}

fn msg_name_taken() -> (r: String)
    ensures
        r@ == "Name already taken"@,
{
    let s: &str = "Name already taken";
    s.to_owned()
}

fn msg_room_full() -> (r: String)
    ensures
        r@ == "Room is full"@,
{
    let s: &str = "Room is full";
    s.to_owned()
}

fn msg_game_over() -> (r: String)
    ensures
        r@ == "Game has already ended"@,
{
    let s: &str = "Game has already ended";
    s.to_owned()
}

fn msg_midgame() -> (r: String)
    ensures
        r@ == "New players are disabled for this game"@,
{
    let s: &str = "New players are disabled for this game";
    s.to_owned()
}

fn msg_other_session() -> (r: String)
    ensures
        r@ == "You signed in from another session"@,
{
    let s: &str = "You signed in from another session";
    s.to_owned()
}

} // verus!
