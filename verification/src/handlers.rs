//! The room's reaction to each client message.  Every mutation is gated
//! on the sender's connection generation, so a superseded session can
//! never affect the room again.

use vstd::prelude::*;
use crate::msgs::{ClientMsg, EngineError, ObserverInfo, Outbound, PlayerInfo, RoomStage,
    ServerMsg};
use crate::names::{str_at, str_in, insert_str, remove_str, contains_str};
use crate::room::Room;
use crate::tbl::{
    has_key, key_at, value_of, index_of_key, read_entry, put_entry, has_entry,
    lemma_index_of_key, lemma_key_index_valid, lemma_same_keys,
};
use crate::text::{str_eq, trim};

verus! {

/// The call answered `name` with exactly one error message and touched
/// nothing else of the output.
pub open spec fn refusal_reply(
    out0: Seq<Outbound>,
    out1: Seq<Outbound>,
    name: Seq<char>,
    text: Seq<char>,
) -> bool {
    &&& out1.len() == out0.len() + 1
    &&& (out1.last() matches Outbound::Direct { name: n, msg } && n@ == name && (
    msg matches ServerMsg::ErrorMsg(m) && m@ == text))
}

/// The sender's connection is the one the room currently recognizes:
/// the message comes from the session that most recently signed in
/// under this name.
pub open spec fn live_sender(r: Room, name: Seq<char>, generation: u64) -> bool {
    &&& has_key(r.connection_generation@, name)
    &&& value_of(r.connection_generation@, name) == generation
}

/// Nothing changed but the moderator bookkeeping (the list and its
/// absence timer), which routine maintenance may touch on any message.
pub open spec fn unchanged_but_moderation(pre: Room, post: Room) -> bool {
    post == (Room {
        moderators: post.moderators,
        no_connected_moderator_since_s: post.no_connected_moderator_since_s,
        ..pre
    })
}

/// The output grew and now ends with one error message to `name`.
pub open spec fn trailing_error(
    out0: Seq<Outbound>,
    out1: Seq<Outbound>,
    name: Seq<char>,
    text: Seq<char>,
) -> bool {
    &&& out1.len() > out0.len()
    &&& (out1.last() matches Outbound::Direct { name: n, msg } && n@ == name && (
    msg matches ServerMsg::ErrorMsg(m) && m@ == text))
}

/// Somewhere past `out0`, `out1` tells the `k`-th name of the turn order
/// the fresh description together with its own hand.
pub open spec fn players_choose_sent(post: Room, out0: Seq<Outbound>, out1: Seq<Outbound>, k: int) -> bool {
    exists|p: int|
        out0.len() <= p < out1.len() && (#[trigger] out1[p] matches Outbound::Direct {
            name: nm,
            msg: m2,
        } && nm@ == str_at(post.player_order@, k) && (m2 matches ServerMsg::PlayersChoose {
            description: d2,
            hand: h2,
        } && d2@ == post.current_description@ && h2@ == value_of(
            post.player_hand@,
            str_at(post.player_order@, k),
        )@))
}

/// `players_choose_sent` tolerates any output prefix of its baseline.
pub proof fn lemma_players_choose_sent_weaken(
    post: Room,
    out0: Seq<Outbound>,
    out1: Seq<Outbound>,
    out2: Seq<Outbound>,
    k: int,
)
    requires
        players_choose_sent(post, out1, out2, k),
        out0.len() <= out1.len(),
    ensures
        players_choose_sent(post, out0, out2, k),
{
    let p0 = choose|p0: int|
        out1.len() <= p0 < out2.len() && (#[trigger] out2[p0] matches Outbound::Direct {
            name: nm,
            msg: m2,
        } && nm@ == str_at(post.player_order@, k) && (m2 matches ServerMsg::PlayersChoose {
            description: d2,
            hand: h2,
        } && d2@ == post.current_description@ && h2@ == value_of(
            post.player_hand@,
            str_at(post.player_order@, k),
        )@));
    assert(out0.len() <= p0 < out2.len());
}

/// `name` is the storyteller with the floor: the room awaits the active
/// player's card and description.
pub open spec fn active_turn(r: Room, name: Seq<char>) -> bool {
    &&& r.stage == RoomStage::ActiveChooses
    &&& r.is_player(name)
    &&& r.player_order@.len() > 0
    &&& name == r.active_name()
}

/// `name` is a non-storyteller player while submissions are open.
pub open spec fn choosing_turn(r: Room, name: Seq<char>) -> bool {
    &&& r.stage == RoomStage::PlayersChoose
    &&& r.is_player(name)
    &&& r.player_order@.len() > 0
    &&& name != r.active_name()
}

/// `name` is a non-storyteller player while votes are open.
pub open spec fn voting_turn(r: Room, name: Seq<char>) -> bool {
    &&& r.stage == RoomStage::Voting
    &&& r.is_player(name)
    &&& r.player_order@.len() > 0
    &&& name != r.active_name()
}

/// `name`'s hand holds `card`.
pub open spec fn holds_card(r: Room, name: Seq<char>, card: Seq<char>) -> bool {
    has_key(r.player_hand@, name) && str_in(value_of(r.player_hand@, name)@, card)
}

/// `card` stands among the submitted center cards.
pub open spec fn in_center(r: Room, card: Seq<char>) -> bool {
    exists|i: int|
        0 <= i < r.player_to_current_card@.len() && (#[trigger] r.player_to_current_card@[i]).1@
            == card
}

/// The move was refused: nothing but moderator maintenance moved, and the
/// output now ends with the matching error to the sender.
pub open spec fn refused_in_place(
    pre: Room,
    post: Room,
    out0: Seq<Outbound>,
    out1: Seq<Outbound>,
    name: Seq<char>,
    text: Seq<char>,
) -> bool {
    &&& unchanged_but_moderation(pre, post)
    &&& trailing_error(out0, out1, name, text)
}

/// The matching stage opened for everyone: readiness was cleared, each
/// player holding a hand was told the description with it, and a
/// snapshot closed the output.
pub open spec fn submissions_opened(post: Room, out0: Seq<Outbound>, out1: Seq<Outbound>) -> bool {
    &&& post.stage == RoomStage::PlayersChoose
    &&& crate::room::count_ready(post.players@) == 0
    &&& (forall|k: int|
        0 <= k < post.player_order@.len() && has_key(
            post.player_hand@,
            str_at(post.player_order@, k),
        ) ==> #[trigger] players_choose_sent(post, out0, out1, k))
    &&& (out1.last() matches Outbound::Broadcast(m) && post.is_room_state_of(m))
}

/// `submissions_opened` tolerates any output prefix of its baseline.
pub proof fn lemma_submissions_opened_weaken(
    post: Room,
    out0: Seq<Outbound>,
    out1: Seq<Outbound>,
    out2: Seq<Outbound>,
)
    requires
        submissions_opened(post, out1, out2),
        out0.len() <= out1.len(),
    ensures
        submissions_opened(post, out0, out2),
{
    assert forall|k: int|
        0 <= k < post.player_order@.len() && has_key(
            post.player_hand@,
            str_at(post.player_order@, k),
        ) implies #[trigger] players_choose_sent(post, out0, out2, k) by {
        lemma_players_choose_sent_weaken(post, out0, out1, out2, k);
    }
}

/// Some snapshot broadcast was appended past the old output.
pub open spec fn state_broadcast_appended(out0: Seq<Outbound>, out1: Seq<Outbound>) -> bool {
    exists|k: int|
        out0.len() <= k < out1.len() && (#[trigger] out1[k] matches Outbound::Broadcast(m) && (
        m matches ServerMsg::RoomState(_)))
}

/// After a member other than the storyteller left (or became an
/// observer), the stage is still coherent: the storyteller's submission,
/// the votes and their coverage all survive the removal.
proof fn lemma_coherent_after_remove(a: Room, b: Room, name: Seq<char>)
    requires
        a.wf(),
        b.stage == a.stage,
        (a.stage == RoomStage::PlayersChoose || a.stage == RoomStage::Voting || a.stage
            == RoomStage::Results) ==> (a.player_order@.len() > 0 && a.active_name() != name),
        (a.player_order@.len() > 0 && a.active_name() != name) ==> (b.player_order@.len() > 0
            && b.active_name() == a.active_name()),
        forall|x: Seq<char>|
            x != name ==> has_key(b.player_to_current_card@, x) == has_key(
                a.player_to_current_card@,
                x,
            ),
        forall|x: Seq<char>|
            x != name ==> has_key(b.player_to_vote@, x) == has_key(a.player_to_vote@, x),
        !has_key(b.player_to_vote@, name),
        forall|x: Seq<char>| x != name ==> b.is_player(x) == a.is_player(x),
        !b.is_player(name),
    ensures
        b.stage_coherent(),
{
    if b.stage == RoomStage::PlayersChoose || b.stage == RoomStage::Voting || b.stage
        == RoomStage::Results {
        assert(has_key(a.player_to_current_card@, a.active_name()));
        assert(has_key(b.player_to_current_card@, b.active_name()));
        if b.stage == RoomStage::Voting || b.stage == RoomStage::Results {
            assert forall|x: Seq<char>| #[trigger] has_key(b.player_to_vote@, x) implies x
                != b.active_name() by {
                assert(x != name);
                assert(has_key(a.player_to_vote@, x));
            }
        }
        if b.stage == RoomStage::Results {
            assert forall|x: Seq<char>|
                #[trigger] has_key(b.players@, x) && x != b.active_name() implies has_key(
                b.player_to_vote@,
                x,
            ) by {
                assert(b.is_player(x));
                assert(x != name);
                assert(b.is_player(x) == a.is_player(x));
                assert(has_key(a.players@, x));
                assert(has_key(a.player_to_vote@, x));
            }
        }
    }
}

impl Room {
    /// Whether the departure of `target` would dethrone the storyteller
    /// of a running round.
    fn departure_hits_active(&self, target: &str) -> (r: bool)
        requires
            self.wf(),
        ensures
            r == (self.round_running() && self.player_order@.len() > 0 && self.active_name()
                == target@),
    {
        let in_round = match self.stage {
            RoomStage::ActiveChooses => true,
            RoomStage::PlayersChoose => true,
            RoomStage::Voting => true,
            RoomStage::Results => true,
            _ => false,
        };
        if !in_round {
            return false;
        }
        if self.player_order.len() == 0 {
            return false;
        }
        str_eq(self.player_order[self.active_player].as_str(), target)
    }

    /// Flip one player's readiness.
    fn set_player_ready(&mut self, name: &str, ready: bool)
        requires
            old(self).wf(),
            old(self).is_player(name@),
        ensures
            final(self).wf(),
            *final(self) == (Room { players: final(self).players, ..*old(self) }),
            forall|x: Seq<char>| final(self).is_player(x) == old(self).is_player(x),
            value_of(final(self).players@, name@) == (PlayerInfo {
                ready,
                ..value_of(old(self).players@, name@)
            }),
            forall|x: Seq<char>|
                x != name@ && old(self).is_player(x) ==> value_of(final(self).players@, x)
                    == value_of(old(self).players@, x),
            final(self).players@.len() == old(self).players@.len(),
            forall|i: int|
                0 <= i < old(self).players@.len() ==> ((#[trigger] final(self).players@[i]).0
                    == old(self).players@[i].0 && final(self).players@[i].1.points == old(self).players@[i].1.points && final(self).players@[i].1.connected == old(self).players@[i].1.connected),
    {
        let info = match read_entry(&self.players, name) {
            Some(p) => *p,
            None => {
                proof {
                    assert(false);
                }
                PlayerInfo { connected: false, points: 0, ready: false }
            },
        };
        put_entry(&mut self.players, name, PlayerInfo { ready, ..info });
        proof {
            let idx = index_of_key(old(self).players@, name@);
            assert(self.players@ == old(self).players@.update(
                idx,
                (old(self).players@[idx].0, PlayerInfo { ready, ..info }),
            ));
            lemma_same_keys(old(self).players@, self.players@);
            assert forall|i: int| 0 <= i < self.moderators@.len() implies self.is_member(
                #[trigger] str_at(self.moderators@, i),
            ) by {
                assert(old(self).is_member(str_at(self.moderators@, i)));
            }
            assert(self.wf_base());
            assert(self.wf_coherent());
        }
    }

    /// The `Ready` message: starts the game from the lobby, or marks the
    /// player ready for the next round at the results stage.
    fn on_ready(&mut self, name: &str, out: &mut Vec<Outbound>) -> (r: Result<(), EngineError>)
        requires
            old(self).wf(),
        ensures
            final(self).wf(),
            forall|i: int| 0 <= i < old(out)@.len() ==> final(out)@[i] == old(out)@[i],
            (old(self).stage == RoomStage::Joining && old(self).is_player(name@) && old(self).moderator_is(name@) && old(self).players@.len() >= crate::room::MIN_PLAYERS && old(self).deal_pool() >= old(self).cards_needed()) ==> (r is Ok && final(self).stage
                == RoomStage::ActiveChooses && crate::rounds::round_started(
                *old(self),
                *final(self),
                old(out)@,
                final(out)@,
            )),
            (old(self).stage == RoomStage::Joining && old(self).is_player(name@) && old(self).moderator_is(name@) && old(self).players@.len() < crate::room::MIN_PLAYERS) ==> (*final(self) == *old(self) && refusal_reply(
                old(out)@,
                final(out)@,
                name@,
                "Need at least 3 players"@,
            )),
            (old(self).stage == RoomStage::Results && old(self).is_player(name@) && old(self).spec_should_end()) ==> final(self).stage == RoomStage::End,
    {
        if !has_entry(&self.players, name) {
            return Ok(());
        }
        match self.stage {
            RoomStage::Joining => {
                if !self.is_moderator(name) {
                    return Ok(());
                }
                if self.non_observer_player_count() < crate::room::MIN_PLAYERS {
                    out.push(
                        Outbound::Direct {
                            name: name.to_owned(),
                            msg: ServerMsg::ErrorMsg(msg_need_players()),
                        },
                    );
                    return Ok(());
                }
                proof {
                    crate::membership::lemma_count_promotable_nonneg(self.observers@);
                }
                match self.init_round(out) {
                    Ok(()) => Ok(()),
                    Err(e) => Err(e),
                }
            },
            RoomStage::Results => {
                self.set_player_ready(name, true);
                proof {
                    // Readiness does not touch the scores, so the end-of-game
                    // question reads the same.
                    assert(crate::room::player_points(self.players@) =~= crate::room::player_points(
                        old(self).players@,
                    ));
                    assert(self.spec_should_end() == old(self).spec_should_end());
                }
                let state_msg = self.room_state();
                out.push(Outbound::Broadcast(state_msg));
                if self.should_end_game() {
                    self.stage = RoomStage::End;
                    proof {
                        assert(self.wf_base());
                        assert(self.wf_coherent());
                    }
                    match self.get_msg(None) {
                        Some(m) => {
                            out.push(Outbound::Broadcast(m));
                        },
                        None => {
                        },
                    }
                    return Ok(());
                }
                let ready = self.ready_count();
                if ready >= self.players.len() {
                    if self.players.len() >= crate::room::MIN_PLAYERS {
                        match self.init_round(out) {
                            Ok(()) => Ok(()),
                            Err(e) => Err(e),
                        }
                    } else {
                        out.push(Outbound::Broadcast(ServerMsg::ErrorMsg(msg_need_players())));
                        Ok(())
                    }
                } else {
                    Ok(())
                }
            },
            _ => Ok(()),
        }
    }

    /// The `StartGame` message: a moderator starts the first round.
    fn on_start_game(&mut self, name: &str, out: &mut Vec<Outbound>) -> (r: Result<
        (),
        EngineError,
    >)
        requires
            old(self).wf(),
        ensures
            final(self).wf(),
            forall|i: int| 0 <= i < old(out)@.len() ==> final(out)@[i] == old(out)@[i],
            (old(self).stage == RoomStage::Joining && old(self).is_player(name@) && old(self).moderator_is(name@) && old(self).players@.len() >= crate::room::MIN_PLAYERS && old(self).deal_pool() >= old(self).cards_needed()) ==> (r is Ok && final(self).stage
                == RoomStage::ActiveChooses && crate::rounds::round_started(
                *old(self),
                *final(self),
                old(out)@,
                final(out)@,
            )),
            (old(self).stage == RoomStage::Joining && old(self).is_player(name@) && !old(self).moderator_is(name@)) ==> (*final(self) == *old(self) && refusal_reply(
                old(out)@,
                final(out)@,
                name@,
                "Only moderators can start"@,
            )),
            (old(self).stage == RoomStage::Joining && old(self).is_player(name@) && old(self).moderator_is(name@) && old(self).players@.len() < crate::room::MIN_PLAYERS) ==> (*final(self) == *old(self) && refusal_reply(
                old(out)@,
                final(out)@,
                name@,
                "Need at least 3 players"@,
            )),
    {
        if !has_entry(&self.players, name) {
            return Ok(());
        }
        match self.stage {
            RoomStage::Joining => {
            },
            _ => {
                return Ok(());
            },
        }
        if !self.is_moderator(name) {
            out.push(
                Outbound::Direct {
                    name: name.to_owned(),
                    msg: ServerMsg::ErrorMsg(msg_only_moderators_start()),
                },
            );
            return Ok(());
        }
        if self.non_observer_player_count() < crate::room::MIN_PLAYERS {
            out.push(
                Outbound::Direct {
                    name: name.to_owned(),
                    msg: ServerMsg::ErrorMsg(msg_need_players()),
                },
            );
            return Ok(());
        }
        proof {
            crate::membership::lemma_count_promotable_nonneg(self.observers@);
        }
        match self.init_round(out) {
            Ok(()) => Ok(()),
            Err(e) => Err(e),
        }
    }

    /// The `LeaveRoom` message.
    fn on_leave(&mut self, name: &str, out: &mut Vec<Outbound>) -> (r: Result<(), EngineError>)
        requires
            old(self).wf(),
        ensures
            final(self).wf(),
            forall|i: int| 0 <= i < old(out)@.len() ==> final(out)@[i] == old(out)@[i],
            old(self).is_member(name@) ==> (!final(self).is_member(name@) && final(out)@.len()
                > old(out)@.len() && (final(out)@[old(out)@.len() as int]
                matches Outbound::Direct { name: n, msg } && n@ == name@ && (
            msg matches ServerMsg::LeftRoom { .. }))),
            !old(self).is_member(name@) ==> *final(self) == *old(self) && final(out)@ == old(
                out,
            )@,
    {
        let was_active = self.departure_hits_active(name);
        let ghost pre = *self;
        let removed = self.remove_player(
            name,
            Some(ServerMsg::LeftRoom { reason: msg_left_game() }),
            out,
        );
        if removed {
            proof {
                if !was_active {
                    lemma_coherent_after_remove(pre, *self, name@);
                }
            }
            return self.after_member_removed_or_observered(was_active, out);
        }
        let removed_observer = self.remove_observer(
            name,
            Some(ServerMsg::LeftRoom { reason: msg_left_game() }),
            out,
        );
        if removed_observer {
            let state_msg = self.room_state();
            out.push(Outbound::Broadcast(state_msg));
        }
        Ok(())
    }

    /// The `KickPlayer` message: moderators eject a member; the creator
    /// cannot be ejected.
    fn on_kick(&mut self, name: &str, player: &String, out: &mut Vec<Outbound>) -> (r: Result<
        (),
        EngineError,
    >)
        requires
            old(self).wf(),
        ensures
            final(self).wf(),
            forall|i: int| 0 <= i < old(out)@.len() ==> final(out)@[i] == old(out)@[i],
            !old(self).moderator_is(name@) ==> (*final(self) == *old(self) && refusal_reply(
                old(out)@,
                final(out)@,
                name@,
                "Only moderators can kick players"@,
            )),
            (old(self).moderator_is(name@) && crate::text::trim_spec(player@).len() > 0 && old(self).creator_is(crate::text::trim_spec(player@))) ==> (*final(self) == *old(self)
                && refusal_reply(
                old(out)@,
                final(out)@,
                name@,
                "The creator cannot be kicked"@,
            )),
            (old(self).moderator_is(name@) && crate::text::trim_spec(player@).len() > 0 && !old(self).creator_is(crate::text::trim_spec(player@)) && old(self).is_member(
                crate::text::trim_spec(player@),
            )) ==> (!final(self).is_member(crate::text::trim_spec(player@)) && final(out)@.len()
                > old(out)@.len() && (final(out)@[old(out)@.len() as int]
                matches Outbound::Direct { name: n, msg } && n@ == crate::text::trim_spec(player@)
                && (msg matches ServerMsg::Kicked { .. }))),
    {
        if !self.is_moderator(name) {
            out.push(
                Outbound::Direct {
                    name: name.to_owned(),
                    msg: ServerMsg::ErrorMsg(msg_only_moderators_kick()),
                },
            );
            return Ok(());
        }
        let target = trim(player.as_str());
        if target.unicode_len() == 0 {
            return Ok(());
        }
        if self.is_creator(target) {
            out.push(
                Outbound::Direct {
                    name: name.to_owned(),
                    msg: ServerMsg::ErrorMsg(msg_creator_kick()),
                },
            );
            return Ok(());
        }
        let was_active = self.departure_hits_active(target);
        let ghost pre = *self;
        let removed = self.remove_player(
            target,
            Some(ServerMsg::Kicked { reason: msg_kicked() }),
            out,
        );
        if removed {
            proof {
                if !was_active {
                    lemma_coherent_after_remove(pre, *self, target@);
                }
            }
            return self.after_member_removed_or_observered(was_active, out);
        }
        let removed_observer = self.remove_observer(
            target,
            Some(ServerMsg::Kicked { reason: msg_kicked() }),
            out,
        );
        if removed_observer {
            let state_msg = self.room_state();
            out.push(Outbound::Broadcast(state_msg));
        }
        Ok(())
    }

    /// The `SetModerator` message: moderators promote; only the creator
    /// demotes, and never the creator.
    fn on_set_moderator(
        &mut self,
        name: &str,
        player: &String,
        enabled: bool,
        out: &mut Vec<Outbound>,
    )
        requires
            old(self).wf(),
        ensures
            final(self).wf(),
            forall|i: int| 0 <= i < old(out)@.len() ==> final(out)@[i] == old(out)@[i],
            (!old(self).creator_is(name@) && !old(self).moderator_is(name@)) ==> (*final(self)
                == *old(self) && refusal_reply(
                old(out)@,
                final(out)@,
                name@,
                "Only moderators can promote moderators"@,
            )),
            ((old(self).creator_is(name@) || old(self).moderator_is(name@))
                && crate::text::trim_spec(player@).len() > 0 && old(self).is_member(
                crate::text::trim_spec(player@),
            ) && enabled) ==> (str_in(final(self).moderators@, crate::text::trim_spec(player@))
                && state_broadcast_appended(old(out)@, final(out)@)),
            (old(self).creator_is(name@) && crate::text::trim_spec(player@).len() > 0 && old(self).is_member(crate::text::trim_spec(player@)) && !enabled && !old(self).creator_is(
                crate::text::trim_spec(player@),
            )) ==> !str_in(final(self).moderators@, crate::text::trim_spec(player@)),
    {
        let is_creator = self.is_creator(name);
        let is_moderator = self.is_moderator(name);
        if !is_creator && !is_moderator {
            out.push(
                Outbound::Direct {
                    name: name.to_owned(),
                    msg: ServerMsg::ErrorMsg(msg_only_moderators_promote()),
                },
            );
            return ;
        }
        let target = trim(player.as_str());
        if target.unicode_len() == 0 || !self.member_exists(target) {
            return ;
        }
        if !enabled && !is_creator {
            out.push(
                Outbound::Direct {
                    name: name.to_owned(),
                    msg: ServerMsg::ErrorMsg(msg_only_creator_demotes()),
                },
            );
            return ;
        }
        if self.is_creator(target) && !enabled {
            out.push(
                Outbound::Direct {
                    name: name.to_owned(),
                    msg: ServerMsg::ErrorMsg(msg_creator_moderator()),
                },
            );
            return ;
        }
        if enabled {
            insert_str(&mut self.moderators, target);
            proof {
                assert forall|i: int| 0 <= i < self.moderators@.len() implies self.is_member(
                    #[trigger] str_at(self.moderators@, i),
                ) by {
                    let x = str_at(self.moderators@, i);
                    assert(str_in(self.moderators@, x));
                    if x != target@ {
                        assert(str_in(old(self).moderators@, x));
                        let w = choose|w: int|
                            0 <= w < old(self).moderators@.len() && #[trigger] str_at(
                                old(self).moderators@,
                                w,
                            ) == x;
                        assert(old(self).is_member(x));
                    }
                }
                assert(self.wf_base());
                assert(self.wf_coherent());
            }
        } else {
            remove_str(&mut self.moderators, target);
            proof {
                assert forall|i: int| 0 <= i < self.moderators@.len() implies self.is_member(
                    #[trigger] str_at(self.moderators@, i),
                ) by {
                    let x = str_at(self.moderators@, i);
                    assert(str_in(self.moderators@, x));
                    assert(str_in(old(self).moderators@, x));
                    let w = choose|w: int|
                        0 <= w < old(self).moderators@.len() && #[trigger] str_at(
                            old(self).moderators@,
                            w,
                        ) == x;
                    assert(old(self).is_member(x));
                }
                let cr = self.creator;
                match cr {
                    Some(c) => {
                        if self.is_member(c@) {
                            assert(c@ != target@);
                            assert(str_in(old(self).moderators@, c@));
                        }
                    },
                    None => {
                    },
                }
                assert(self.wf_base());
                assert(self.wf_coherent());
            }
        }
        self.clean_moderators();
        let state_msg = self.room_state();
        let ghost bpos = out@.len();
        out.push(Outbound::Broadcast(state_msg));
        proof {
            assert(out@[bpos as int] matches Outbound::Broadcast(m) && (
            m matches ServerMsg::RoomState(_)));
        }
    }

    /// The `SetObserver` message: demote a player to observer, or mark
    /// an observer as asking to play.
    fn on_set_observer(
        &mut self,
        name: &str,
        player: &String,
        enabled: bool,
        out: &mut Vec<Outbound>,
    ) -> (r: Result<(), EngineError>)
        requires
            old(self).wf(),
        ensures
            final(self).wf(),
            forall|i: int| 0 <= i < old(out)@.len() ==> final(out)@[i] == old(out)@[i],
            ((old(self).stage == RoomStage::ActiveChooses || old(self).stage
                == RoomStage::PlayersChoose || old(self).stage == RoomStage::Voting)
                && crate::text::trim_spec(player@).len() > 0 && old(self).is_player(
                crate::text::trim_spec(player@),
            ) && (crate::text::trim_spec(player@) == name@ || old(self).moderator_is(name@))
                && enabled && old(self).player_order@.len() > 0 && crate::text::trim_spec(player@)
                != old(self).active_name()) ==> (!final(self).is_player(
                crate::text::trim_spec(player@),
            ) && final(self).is_observer(crate::text::trim_spec(player@))),
            ((old(self).stage == RoomStage::ActiveChooses || old(self).stage
                == RoomStage::PlayersChoose || old(self).stage == RoomStage::Voting)
                && crate::text::trim_spec(player@).len() > 0 && old(self).is_member(
                crate::text::trim_spec(player@),
            ) && (crate::text::trim_spec(player@) == name@ || old(self).moderator_is(name@))
                && enabled && old(self).player_order@.len() > 0 && crate::text::trim_spec(player@)
                == old(self).active_name()) ==> (*final(self) == *old(self) && refusal_reply(
                old(out)@,
                final(out)@,
                name@,
                "Storyteller cannot become observer this round"@,
            )),
            (old(self).stage != RoomStage::Joining && old(self).stage != RoomStage::End
                && crate::text::trim_spec(player@).len() > 0 && old(self).is_observer(
                crate::text::trim_spec(player@),
            ) && !old(self).is_player(crate::text::trim_spec(player@)) && (crate::text::trim_spec(
                player@,
            ) == name@ || old(self).moderator_is(name@)) && !enabled) ==> (value_of(
                final(self).observers@,
                crate::text::trim_spec(player@),
            ) == (ObserverInfo {
                join_requested: true,
                auto_join_on_next_round: false,
                ..value_of(old(self).observers@, crate::text::trim_spec(player@))
            }) && state_broadcast_appended(old(out)@, final(out)@)),
    {
        match self.stage {
            RoomStage::Joining => {
                return Ok(());
            },
            RoomStage::End => {
                return Ok(());
            },
            _ => {
            },
        }
        let target = trim(player.as_str());
        if target.unicode_len() == 0 || !self.member_exists(target) {
            return Ok(());
        }
        let self_target = str_eq(target, name);
        if !self_target && !self.is_moderator(name) {
            out.push(
                Outbound::Direct {
                    name: name.to_owned(),
                    msg: ServerMsg::ErrorMsg(msg_only_moderators_change()),
                },
            );
            return Ok(());
        }
        if enabled {
            if !has_entry(&self.players, target) {
                return Ok(());
            }
            let mid_round = match self.stage {
                RoomStage::ActiveChooses => true,
                RoomStage::PlayersChoose => true,
                RoomStage::Voting => true,
                _ => false,
            };
            let hits_active = self.departure_hits_active(target);
            if mid_round && hits_active {
                out.push(
                    Outbound::Direct {
                        name: name.to_owned(),
                        msg: ServerMsg::ErrorMsg(msg_storyteller_observer()),
                    },
                );
                return Ok(());
            }
            let ghost pre = *self;
            let converted = self.convert_player_to_observer(target, false);
            if converted {
                proof {
                    if !hits_active {
                        lemma_coherent_after_remove(pre, *self, target@);
                    }
                }
                return self.after_member_removed_or_observered(hits_active, out);
            }
            Ok(())
        } else {
            match read_entry(&self.observers, target) {
                Some(o) => {
                    let info = *o;
                    put_entry(
                        &mut self.observers,
                        target,
                        ObserverInfo { join_requested: true, auto_join_on_next_round: false, ..info },
                    );
                    proof {
                        lemma_same_keys(old(self).observers@, self.observers@);
                        assert forall|i: int|
                            0 <= i < self.moderators@.len() implies self.is_member(
                            #[trigger] str_at(self.moderators@, i),
                        ) by {
                            assert(old(self).is_member(str_at(self.moderators@, i)));
                        }
                        assert(self.wf_base());
                        assert(self.wf_coherent());
                    }
                    let state_msg = self.room_state();
                    let ghost bpos = out@.len();
                    out.push(Outbound::Broadcast(state_msg));
                    proof {
                        assert(out@[bpos as int] matches Outbound::Broadcast(m) && (
                        m matches ServerMsg::RoomState(_)));
                    }
                },
                None => {
                },
            }
            Ok(())
        }
    }

    /// The `RequestJoinFromObserver` message.
    fn on_request_join(&mut self, name: &str, out: &mut Vec<Outbound>)
        requires
            old(self).wf(),
        ensures
            final(self).wf(),
            forall|i: int| 0 <= i < old(out)@.len() ==> final(out)@[i] == old(out)@[i],
            has_key(old(self).observers@, name@) ==> (value_of(final(self).observers@, name@) == (
            ObserverInfo {
                join_requested: true,
                auto_join_on_next_round: false,
                ..value_of(old(self).observers@, name@)
            }) && state_broadcast_appended(old(out)@, final(out)@)),
            !has_key(old(self).observers@, name@) ==> (*final(self) == *old(self) && final(out)@
                == old(out)@),
    {
        match read_entry(&self.observers, name) {
            Some(o) => {
                let info = *o;
                put_entry(
                    &mut self.observers,
                    name,
                    ObserverInfo { join_requested: true, auto_join_on_next_round: false, ..info },
                );
                proof {
                    lemma_same_keys(old(self).observers@, self.observers@);
                    assert forall|i: int| 0 <= i < self.moderators@.len() implies self.is_member(
                        #[trigger] str_at(self.moderators@, i),
                    ) by {
                        assert(old(self).is_member(str_at(self.moderators@, i)));
                    }
                    assert(self.wf_base());
                    assert(self.wf_coherent());
                }
                let state_msg = self.room_state();
                let ghost bpos = out@.len();
                out.push(Outbound::Broadcast(state_msg));
                proof {
                    assert(out@[bpos as int] matches Outbound::Broadcast(m) && (
                    m matches ServerMsg::RoomState(_)));
                }
            },
            None => {
            },
        }
    }

    /// The `SetAllowMidgameJoin` message.
    fn on_set_allow_midgame(&mut self, name: &str, enabled: bool, out: &mut Vec<Outbound>)
        requires
            old(self).wf(),
        ensures
            final(self).wf(),
            forall|i: int| 0 <= i < old(out)@.len() ==> final(out)@[i] == old(out)@[i],
            !old(self).moderator_is(name@) ==> (*final(self) == *old(self) && refusal_reply(
                old(out)@,
                final(out)@,
                name@,
                "Only moderators can change midgame join settings"@,
            )),
            (old(self).moderator_is(name@) && old(self).stage != RoomStage::Joining && old(self).stage != RoomStage::End) ==> (final(self).allow_new_players_midgame == enabled && (
            *final(self) == (Room { allow_new_players_midgame: enabled, ..*old(self) }))
                && state_broadcast_appended(old(out)@, final(out)@)),
    {
        if !self.is_moderator(name) {
            out.push(
                Outbound::Direct {
                    name: name.to_owned(),
                    msg: ServerMsg::ErrorMsg(msg_only_moderators_midgame()),
                },
            );
            return ;
        }
        match self.stage {
            RoomStage::Joining => {
                return ;
            },
            RoomStage::End => {
                return ;
            },
            _ => {
            },
        }
        self.allow_new_players_midgame = enabled;
        proof {
            assert(self.wf_base());
            assert(self.wf_coherent());
        }
        let state_msg = self.room_state();
        let ghost bpos = out@.len();
        out.push(Outbound::Broadcast(state_msg));
        proof {
            assert(out@[bpos as int] matches Outbound::Broadcast(m) && (
            m matches ServerMsg::RoomState(_)));
        }
    }

    /// The `ResumeGame` message: a moderator restarts a paused game once
    /// at least three players are present.
    fn on_resume(&mut self, name: &str, out: &mut Vec<Outbound>) -> (r: Result<(), EngineError>)
        requires
            old(self).wf(),
        ensures
            final(self).wf(),
            forall|i: int| 0 <= i < old(out)@.len() ==> final(out)@[i] == old(out)@[i],
            (old(self).stage == RoomStage::Paused && old(self).players@.len()
                < crate::room::MIN_PLAYERS) ==> final(self).stage == RoomStage::Paused,
            (old(self).stage == RoomStage::Paused && old(self).moderator_is(name@) && old(self).players@.len() >= crate::room::MIN_PLAYERS && old(self).deal_pool()
                >= old(self).cards_needed()) ==> (r is Ok && final(self).stage
                == RoomStage::ActiveChooses && crate::rounds::round_started(
                *old(self),
                *final(self),
                old(out)@,
                final(out)@,
            )),
            (old(self).stage == RoomStage::Paused && old(self).moderator_is(name@) && old(self).players@.len() < crate::room::MIN_PLAYERS) ==> (*final(self) == *old(self)
                && r is Ok && refusal_reply(
                old(out)@,
                final(out)@,
                name@,
                "Need at least 3 non-observer players to resume"@,
            )),
            (old(self).stage == RoomStage::Paused && !old(self).moderator_is(name@)) ==> (
            *final(self) == *old(self) && refusal_reply(
                old(out)@,
                final(out)@,
                name@,
                "Only moderators can resume the game"@,
            )),
    {
        match self.stage {
            RoomStage::Paused => {
            },
            _ => {
                return Ok(());
            },
        }
        if !self.is_moderator(name) {
            out.push(
                Outbound::Direct {
                    name: name.to_owned(),
                    msg: ServerMsg::ErrorMsg(msg_only_moderators_resume()),
                },
            );
            return Ok(());
        }
        if self.non_observer_player_count() < crate::room::MIN_PLAYERS {
            out.push(
                Outbound::Direct {
                    name: name.to_owned(),
                    msg: ServerMsg::ErrorMsg(msg_need_players_resume()),
                },
            );
            return Ok(());
        }
        proof {
            crate::membership::lemma_count_promotable_nonneg(self.observers@);
        }
        match self.init_round(out) {
            Ok(()) => Ok(()),
            Err(e) => Err(e),
        }
    }

    /// The storyteller chooses a card and a description, opening the
    /// matching stage for everyone else.
    fn on_active_choose(
        &mut self,
        name: &str,
        card: String,
        description: &String,
        out: &mut Vec<Outbound>,
    )
        requires
            old(self).wf(),
        ensures
            final(self).wf(),
            forall|i: int| 0 <= i < old(out)@.len() ==> final(out)@[i] == old(out)@[i],
            (old(self).stage == RoomStage::ActiveChooses && old(self).is_player(name@) && old(self).player_order@.len() > 0 && name@ == old(self).active_name() && !(has_key(
                old(self).player_hand@,
                name@,
            ) && str_in(value_of(old(self).player_hand@, name@)@, card@))) ==> (*final(self)
                == *old(self) && refusal_reply(old(out)@, final(out)@, name@, "Invalid card"@)),
            (old(self).stage == RoomStage::ActiveChooses && old(self).is_player(name@) && old(self).player_order@.len() > 0 && name@ == old(self).active_name() && has_key(
                old(self).player_hand@,
                name@,
            ) && str_in(value_of(old(self).player_hand@, name@)@, card@) && crate::text::trim_spec(
                description@,
            ).len() == 0) ==> (*final(self) == *old(self) && refusal_reply(
                old(out)@,
                final(out)@,
                name@,
                "Description must not be empty"@,
            )),
            (old(self).stage == RoomStage::ActiveChooses && old(self).is_player(name@) && old(self).player_order@.len() > 0 && name@ == old(self).active_name() && has_key(
                old(self).player_hand@,
                name@,
            ) && str_in(value_of(old(self).player_hand@, name@)@, card@) && crate::text::trim_spec(
                description@,
            ).len() > 0) ==> {
                &&& final(self).current_description@ == crate::text::trim_spec(description@)
                &&& final(self).player_to_current_card@.len() == 1
                &&& has_key(final(self).player_to_current_card@, name@)
                &&& value_of(final(self).player_to_current_card@, name@)@ == card@
                &&& submissions_opened(*final(self), old(out)@, final(out)@)
            },
    {
        if !has_entry(&self.players, name) {
            return ;
        }
        match self.stage {
            RoomStage::ActiveChooses => {
            },
            _ => {
                return ;
            },
        }
        if self.player_order.len() == 0 {
            return ;
        }
        if !str_eq(self.player_order[self.active_player].as_str(), name) {
            return ;
        }
        let has_card = match read_entry(&self.player_hand, name) {
            Some(h) => contains_str(h, card.as_str()),
            None => false,
        };
        if !has_card {
            out.push(
                Outbound::Direct {
                    name: name.to_owned(),
                    msg: ServerMsg::ErrorMsg(msg_invalid_card()),
                },
            );
            return ;
        }
        let d = trim(description.as_str());
        if d.unicode_len() == 0 {
            out.push(
                Outbound::Direct {
                    name: name.to_owned(),
                    msg: ServerMsg::ErrorMsg(msg_description_empty()),
                },
            );
            return ;
        }
        self.current_description = d.to_owned();
        let ghost cur0 = self.player_to_current_card@;
        put_entry(&mut self.player_to_current_card, name, card);
        self.stage = RoomStage::PlayersChoose;
        proof {
            assert(cur0.len() == 0);
            lemma_key_index_valid(self.player_to_current_card@, name@);
            assert(self.player_to_current_card@.len() == 1);
            assert forall|i2: int|
                0 <= i2 < self.player_to_current_card@.len() implies has_key(
                self.player_hand@,
                #[trigger] key_at(self.player_to_current_card@, i2),
            ) && str_in(
                value_of(self.player_hand@, key_at(self.player_to_current_card@, i2))@,
                self.player_to_current_card@[i2].1@,
            ) by {
                assert(key_at(self.player_to_current_card@, i2) == name@);
                lemma_index_of_key(self.player_to_current_card@, name@, i2);
            }
            assert(self.wf_base());
            assert(has_key(self.player_to_current_card@, self.active_name()));
            assert(self.wf_coherent());
        }
        let n = self.player_order.len();
        let ghost outp = out@;
        let mut k: usize = 0;
        while k < n
            invariant
                k <= n,
                n == self.player_order@.len(),
                self.wf(),
                self.stage == RoomStage::PlayersChoose,
                out@.len() >= outp.len(),
                forall|i2: int| 0 <= i2 < outp.len() ==> out@[i2] == outp[i2],
                forall|q: int|
                    #![trigger str_at(self.player_order@, q)]
                    0 <= q < k && has_key(self.player_hand@, str_at(self.player_order@, q)) ==> (
                    exists|p: int|
                        outp.len() <= p < out@.len() && (#[trigger] out@[p]
                            matches Outbound::Direct { name: nm, msg: m2 } && nm@ == str_at(
                            self.player_order@,
                            q,
                        ) && (m2 matches ServerMsg::PlayersChoose { description: d2, hand: h2 }
                            && d2@ == self.current_description@ && h2@ == value_of(
                            self.player_hand@,
                            str_at(self.player_order@, q),
                        )@))),
            decreases n - k,
        {
            let pname = self.player_order[k].clone();
            let ghost outb = out@;
            match self.get_msg(Some(pname.as_str())) {
                Some(m) => {
                    out.push(Outbound::Direct { name: pname, msg: m });
                },
                None => {
                    proof {
                        assert(!has_key(self.player_hand@, str_at(self.player_order@, k as int)));
                    }
                },
            }
            proof {
                assert forall|q: int|
                    #![trigger str_at(self.player_order@, q)]
                    0 <= q < k + 1 && has_key(
                        self.player_hand@,
                        str_at(self.player_order@, q),
                    ) implies (exists|p: int|
                    outp.len() <= p < out@.len() && (#[trigger] out@[p]
                        matches Outbound::Direct { name: nm, msg: m2 } && nm@ == str_at(
                        self.player_order@,
                        q,
                    ) && (m2 matches ServerMsg::PlayersChoose { description: d2, hand: h2 }
                        && d2@ == self.current_description@ && h2@ == value_of(
                        self.player_hand@,
                        str_at(self.player_order@, q),
                    )@))) by {
                    if q < k {
                        let p0 = choose|p0: int|
                            outp.len() <= p0 < outb.len() && (#[trigger] outb[p0]
                                matches Outbound::Direct { name: nm, msg: m2 } && nm@ == str_at(
                                self.player_order@,
                                q,
                            ) && (m2 matches ServerMsg::PlayersChoose {
                                description: d2,
                                hand: h2,
                            } && d2@ == self.current_description@ && h2@ == value_of(
                                self.player_hand@,
                                str_at(self.player_order@, q),
                            )@));
                        assert(out@[p0] == outb[p0]);
                    } else {
                        assert(out@[outb.len() as int] matches Outbound::Direct {
                            name: nm,
                            msg: m2,
                        } && nm@ == str_at(self.player_order@, q) && (
                        m2 matches ServerMsg::PlayersChoose { description: d2, hand: h2 } && d2@
                            == self.current_description@ && h2@ == value_of(
                            self.player_hand@,
                            str_at(self.player_order@, q),
                        )@));
                    }
                }
            }
            k = k + 1;
        }
        self.clear_ready();
        proof {
            assert(self.wf_base());
            assert(self.wf_coherent());
        }
        let ghost outv = out@;
        let state_msg = self.room_state();
        out.push(Outbound::Broadcast(state_msg));
        proof {
            assert forall|q: int|
                0 <= q < self.player_order@.len() && has_key(
                    self.player_hand@,
                    str_at(self.player_order@, q),
                ) implies #[trigger] players_choose_sent(*self, old(out)@, out@, q) by {
                let p0 = choose|p0: int|
                    outp.len() <= p0 < outv.len() && (#[trigger] outv[p0]
                        matches Outbound::Direct { name: nm, msg: m2 } && nm@ == str_at(
                        self.player_order@,
                        q,
                    ) && (m2 matches ServerMsg::PlayersChoose { description: d2, hand: h2 } && d2@
                        == self.current_description@ && h2@ == value_of(
                        self.player_hand@,
                        str_at(self.player_order@, q),
                    )@));
                assert(out@[p0] == outv[p0]);
                assert(out@[p0] matches Outbound::Direct { name: nm, msg: m2 } && nm@ == str_at(
                    self.player_order@,
                    q,
                ) && (m2 matches ServerMsg::PlayersChoose { description: d2, hand: h2 } && d2@
                    == self.current_description@ && h2@ == value_of(
                    self.player_hand@,
                    str_at(self.player_order@, q),
                )@));
            }
            assert(submissions_opened(*self, old(out)@, out@));
        }
    }

    /// A non-active player submits a card matching the description.
    fn on_player_choose(&mut self, name: &str, card: String, out: &mut Vec<Outbound>) -> (r:
        Result<(), EngineError>)
        requires
            old(self).wf(),
        ensures
            final(self).wf(),
            forall|i: int| 0 <= i < old(out)@.len() ==> final(out)@[i] == old(out)@[i],
            (old(self).stage == RoomStage::PlayersChoose && old(self).is_player(name@) && old(self).player_order@.len() > 0 && name@ != old(self).active_name() && !(has_key(
                old(self).player_hand@,
                name@,
            ) && str_in(value_of(old(self).player_hand@, name@)@, card@))) ==> (r is Ok && *final(self) == *old(self) && refusal_reply(old(out)@, final(out)@, name@, "Invalid card"@)),
            (old(self).stage == RoomStage::PlayersChoose && old(self).is_player(name@) && old(self).player_order@.len() > 0 && name@ != old(self).active_name() && has_key(
                old(self).player_hand@,
                name@,
            ) && str_in(value_of(old(self).player_hand@, name@)@, card@)) ==> {
                &&& has_key(final(self).player_to_current_card@, name@)
                &&& value_of(final(self).player_to_current_card@, name@)@ == card@
                &&& (forall|x: Seq<char>|
                    x != name@ && has_key(old(self).player_to_current_card@, x) ==> (has_key(
                        final(self).player_to_current_card@,
                        x,
                    ) && value_of(final(self).player_to_current_card@, x) == value_of(
                        old(self).player_to_current_card@,
                        x,
                    )))
                &&& state_broadcast_appended(old(out)@, final(out)@)
            },
    {
        if !has_entry(&self.players, name) {
            return Ok(());
        }
        match self.stage {
            RoomStage::PlayersChoose => {
            },
            _ => {
                return Ok(());
            },
        }
        if self.player_order.len() == 0 {
            return Ok(());
        }
        if str_eq(self.player_order[self.active_player].as_str(), name) {
            return Ok(());
        }
        let has_card = match read_entry(&self.player_hand, name) {
            Some(h) => contains_str(h, card.as_str()),
            None => false,
        };
        if !has_card {
            out.push(
                Outbound::Direct {
                    name: name.to_owned(),
                    msg: ServerMsg::ErrorMsg(msg_invalid_card()),
                },
            );
            return Ok(());
        }
        let ghost cur0 = self.player_to_current_card@;
        proof {
            assert(str_in(value_of(self.player_hand@, name@)@, card@));
            assert forall|i2: int|
                0 <= i2 < cur0.len() && key_at(cur0, i2) != name@ implies cur0[i2].1@
                != card@ by {
                let q = key_at(cur0, i2);
                lemma_index_of_key(cur0, q, i2);
                assert(has_key(cur0, q));
                if cur0[i2].1@ == card@ {
                    self.lemma_distinct_hand_cards(q, name@, card@);
                }
            }
        }
        put_entry(&mut self.player_to_current_card, name, card);
        proof {
            lemma_key_index_valid(self.player_to_current_card@, name@);
            if has_key(cur0, name@) {
                let idx = index_of_key(cur0, name@);
                lemma_key_index_valid(cur0, name@);
                assert forall|i2: int, j2: int|
                    0 <= i2 < j2 < self.player_to_current_card@.len() implies (
                #[trigger] self.player_to_current_card@[i2]).1@
                    != (#[trigger] self.player_to_current_card@[j2]).1@ by {
                    if i2 != idx && j2 != idx {
                        assert(self.player_to_current_card@[i2] == cur0[i2]);
                        assert(self.player_to_current_card@[j2] == cur0[j2]);
                    } else if i2 == idx {
                        assert(self.player_to_current_card@[j2] == cur0[j2]);
                        assert(key_at(cur0, j2) != name@);
                        assert(cur0[j2].1@ != card@);
                        assert(self.player_to_current_card@[i2].1@ == card@);
                    } else {
                        assert(self.player_to_current_card@[i2] == cur0[i2]);
                        assert(key_at(cur0, i2) != name@);
                        assert(cur0[i2].1@ != card@);
                        assert(self.player_to_current_card@[j2].1@ == card@);
                    }
                }
                assert forall|i2: int|
                    0 <= i2 < self.player_to_current_card@.len() implies has_key(
                    self.player_hand@,
                    #[trigger] key_at(self.player_to_current_card@, i2),
                ) && str_in(
                    value_of(self.player_hand@, key_at(self.player_to_current_card@, i2))@,
                    self.player_to_current_card@[i2].1@,
                ) by {
                    if i2 != idx {
                        assert(self.player_to_current_card@[i2] == cur0[i2]);
                        assert(key_at(self.player_to_current_card@, i2) == key_at(cur0, i2));
                    } else {
                        assert(key_at(self.player_to_current_card@, i2) == name@);
                        lemma_index_of_key(self.player_to_current_card@, name@, i2);
                    }
                }
            } else {
                assert(self.player_to_current_card@.drop_last() == cur0);
                assert forall|i2: int, j2: int|
                    0 <= i2 < j2 < self.player_to_current_card@.len() implies (
                #[trigger] self.player_to_current_card@[i2]).1@
                    != (#[trigger] self.player_to_current_card@[j2]).1@ by {
                    if j2 < cur0.len() {
                        assert(self.player_to_current_card@[i2] == cur0[i2]);
                        assert(self.player_to_current_card@[j2] == cur0[j2]);
                    } else {
                        assert(self.player_to_current_card@[i2] == cur0[i2]);
                        assert(self.player_to_current_card@[j2].1@ == card@);
                        assert(key_at(cur0, i2) != name@) by {
                            if key_at(cur0, i2) == name@ {
                                assert(has_key(cur0, name@));
                            }
                        }
                        assert(cur0[i2].1@ != card@);
                    }
                }
                assert forall|i2: int|
                    0 <= i2 < self.player_to_current_card@.len() implies has_key(
                    self.player_hand@,
                    #[trigger] key_at(self.player_to_current_card@, i2),
                ) && str_in(
                    value_of(self.player_hand@, key_at(self.player_to_current_card@, i2))@,
                    self.player_to_current_card@[i2].1@,
                ) by {
                    if i2 < cur0.len() {
                        assert(self.player_to_current_card@[i2] == cur0[i2]);
                        assert(key_at(self.player_to_current_card@, i2) == key_at(cur0, i2));
                    } else {
                        assert(key_at(self.player_to_current_card@, i2) == name@);
                        lemma_index_of_key(self.player_to_current_card@, name@, i2);
                    }
                }
            }
            assert(self.wf_base());
            assert(has_key(self.player_to_current_card@, self.active_name())) by {
                assert(has_key(cur0, self.active_name()));
            }
            assert(self.wf_coherent());
        }
        self.set_player_ready(name, true);
        let state_msg = self.room_state();
        let ghost bpos = out@.len();
        out.push(Outbound::Broadcast(state_msg));
        proof {
            assert(out@[bpos as int] matches Outbound::Broadcast(m) && (
            m matches ServerMsg::RoomState(_)));
            crate::room::lemma_count_ready_bounds(self.players@);
        }
        let ready = self.ready_count();
        let r: Result<(), EngineError> = if ready >= self.players.len() - 1 {
            match self.init_voting(out) {
                Ok(()) => Ok(()),
                Err(e) => Err(e),
            }
        } else {
            Ok(())
        };
        proof {
            assert(out@[bpos as int] matches Outbound::Broadcast(m) && (
            m matches ServerMsg::RoomState(_)));
            assert(state_broadcast_appended(old(out)@, out@));
        }
        r
    }

    /// A non-active player votes for a center card; never for their own.
    fn on_vote(&mut self, name: &str, card: String, out: &mut Vec<Outbound>) -> (r: Result<
        (),
        EngineError,
    >)
        requires
            old(self).wf(),
        ensures
            final(self).wf(),
            forall|i: int| 0 <= i < old(out)@.len() ==> final(out)@[i] == old(out)@[i],
            (old(self).stage == RoomStage::Voting && old(self).is_player(name@) && old(self).player_order@.len() > 0 && name@ == old(self).active_name()) ==> (*final(self)
                == *old(self) && refusal_reply(
                old(out)@,
                final(out)@,
                name@,
                "Active player cannot vote"@,
            )),
            (old(self).stage == RoomStage::Voting && old(self).is_player(name@) && old(self).player_order@.len() > 0 && name@ != old(self).active_name() && !(exists|i: int|
                0 <= i < old(self).player_to_current_card@.len() && (
                #[trigger] old(self).player_to_current_card@[i]).1@ == card@)) ==> (r is Ok
                && *final(self) == *old(self) && refusal_reply(
                old(out)@,
                final(out)@,
                name@,
                "Invalid card"@,
            )),
            (old(self).stage == RoomStage::Voting && old(self).is_player(name@) && old(self).player_order@.len() > 0 && name@ != old(self).active_name() && (exists|i: int|
                0 <= i < old(self).player_to_current_card@.len() && (
                #[trigger] old(self).player_to_current_card@[i]).1@ == card@) && has_key(
                old(self).player_to_current_card@,
                name@,
            ) && value_of(old(self).player_to_current_card@, name@)@ == card@) ==> (*final(self)
                == *old(self) && refusal_reply(
                old(out)@,
                final(out)@,
                name@,
                "You cannot vote for your own card"@,
            )),
            (old(self).stage == RoomStage::Voting && old(self).is_player(name@) && old(self).player_order@.len() > 0 && name@ != old(self).active_name() && (exists|i: int|
                0 <= i < old(self).player_to_current_card@.len() && (
                #[trigger] old(self).player_to_current_card@[i]).1@ == card@) && !(has_key(
                old(self).player_to_current_card@,
                name@,
            ) && value_of(old(self).player_to_current_card@, name@)@ == card@)) ==> {
                &&& has_key(final(self).player_to_vote@, name@)
                &&& value_of(final(self).player_to_vote@, name@)@ == card@
                &&& (forall|x: Seq<char>|
                    x != name@ && has_key(old(self).player_to_vote@, x) ==> (has_key(
                        final(self).player_to_vote@,
                        x,
                    ) && value_of(final(self).player_to_vote@, x) == value_of(
                        old(self).player_to_vote@,
                        x,
                    )))
                &&& state_broadcast_appended(old(out)@, final(out)@)
            },
    {
        if !has_entry(&self.players, name) {
            return Ok(());
        }
        match self.stage {
            RoomStage::Voting => {
            },
            _ => {
                return Ok(());
            },
        }
        if self.player_order.len() == 0 {
            return Ok(());
        }
        if str_eq(self.player_order[self.active_player].as_str(), name) {
            out.push(
                Outbound::Direct {
                    name: name.to_owned(),
                    msg: ServerMsg::ErrorMsg(msg_active_cannot_vote()),
                },
            );
            return Ok(());
        }
        // The vote must name a center card.
        let nc = self.player_to_current_card.len();
        let mut in_center = false;
        let mut t: usize = 0;
        while t < nc
            invariant
                t <= nc,
                nc == self.player_to_current_card@.len(),
                *self == *old(self),
                in_center == (exists|i: int|
                    0 <= i < t && (#[trigger] self.player_to_current_card@[i]).1@ == card@),
            decreases nc - t,
        {
            if str_eq(self.player_to_current_card[t].1.as_str(), card.as_str()) {
                in_center = true;
            }
            t = t + 1;
        }
        if !in_center {
            out.push(
                Outbound::Direct {
                    name: name.to_owned(),
                    msg: ServerMsg::ErrorMsg(msg_invalid_card()),
                },
            );
            return Ok(());
        }
        let own_vote = match read_entry(&self.player_to_current_card, name) {
            Some(own) => str_eq(own.as_str(), card.as_str()),
            None => false,
        };
        if own_vote {
            out.push(
                Outbound::Direct {
                    name: name.to_owned(),
                    msg: ServerMsg::ErrorMsg(msg_own_card()),
                },
            );
            return Ok(());
        }
        let ghost votes0 = self.player_to_vote@;
        put_entry(&mut self.player_to_vote, name, card);
        proof {
            lemma_key_index_valid(self.player_to_vote@, name@);
            if has_key(votes0, name@) {
                let idx = index_of_key(votes0, name@);
                assert forall|i2: int|
                    0 <= i2 < self.player_to_vote@.len() implies (has_key(
                    self.player_to_current_card@,
                    #[trigger] key_at(self.player_to_vote@, i2),
                ) ==> self.player_to_vote@[i2].1@ != value_of(
                    self.player_to_current_card@,
                    key_at(self.player_to_vote@, i2),
                )@) by {
                    if i2 != idx {
                        assert(self.player_to_vote@[i2] == votes0[i2]);
                        assert(key_at(self.player_to_vote@, i2) == key_at(votes0, i2));
                    } else {
                        assert(key_at(self.player_to_vote@, i2) == name@);
                        lemma_index_of_key(self.player_to_vote@, name@, i2);
                    }
                }
            } else {
                assert(self.player_to_vote@.drop_last() == votes0);
                assert forall|i2: int|
                    0 <= i2 < self.player_to_vote@.len() implies (has_key(
                    self.player_to_current_card@,
                    #[trigger] key_at(self.player_to_vote@, i2),
                ) ==> self.player_to_vote@[i2].1@ != value_of(
                    self.player_to_current_card@,
                    key_at(self.player_to_vote@, i2),
                )@) by {
                    if i2 < votes0.len() {
                        assert(self.player_to_vote@[i2] == votes0[i2]);
                        assert(key_at(self.player_to_vote@, i2) == key_at(votes0, i2));
                    } else {
                        assert(key_at(self.player_to_vote@, i2) == name@);
                        lemma_index_of_key(self.player_to_vote@, name@, i2);
                    }
                }
            }
            assert(self.wf_base());
            assert forall|x: Seq<char>| #[trigger] has_key(self.player_to_vote@, x) implies x
                != self.active_name() by {
                if x != name@ {
                    assert(has_key(votes0, x));
                }
            }
            assert(self.wf_coherent());
        }
        self.set_player_ready(name, true);
        let state_msg = self.room_state();
        let ghost bpos = out@.len();
        out.push(Outbound::Broadcast(state_msg));
        proof {
            assert(out@[bpos as int] matches Outbound::Broadcast(m) && (
            m matches ServerMsg::RoomState(_)));
            crate::room::lemma_count_ready_bounds(self.players@);
        }
        let ready = self.ready_count();
        if ready >= self.players.len() - 1 {
            self.init_results(out);
        }
        proof {
            assert(out@[bpos as int] matches Outbound::Broadcast(m) && (
            m matches ServerMsg::RoomState(_)));
            assert(state_broadcast_appended(old(out)@, out@));
        }
        Ok(())
    }

    /// Handle one parsed client message under the generation discipline:
    /// a message from a superseded or unknown session changes nothing.
    #[verifier::rlimit(80)]
    pub fn handle_client_msg(
        &mut self,
        name: &str,
        generation: u64,
        msg: ClientMsg,
        out: &mut Vec<Outbound>,
    ) -> (r: Result<(), EngineError>)
        requires
            old(self).wf(),
        ensures
            final(self).wf(),
            forall|i: int| 0 <= i < old(out)@.len() ==> final(out)@[i] == old(out)@[i],
            // A stale session touches nothing and is not an error.
            !live_sender(*old(self), name@, generation) ==> *final(self) == *old(self) && final(out)@ == old(out)@ && r is Ok,
            (msg matches ClientMsg::ResumeGame {  } && old(self).stage == RoomStage::Paused && old(self).players@.len() < crate::room::MIN_PLAYERS) ==> final(self).stage
                == RoomStage::Paused,
            // Ready in the lobby: the moderator launches the first round.
            (msg matches ClientMsg::Ready {  } && live_sender(*old(self), name@, generation) && old(self).stage == RoomStage::Joining && old(self).is_player(name@) && old(self).moderator_is(name@) && old(self).players@.len() >= crate::room::MIN_PLAYERS && old(self).deal_pool() >= old(self).cards_needed()) ==> (r is Ok && final(self).stage
                == RoomStage::ActiveChooses && crate::rounds::round_started(
                *old(self),
                *final(self),
                old(out)@,
                final(out)@,
            )),
            // StartGame behaves as Ready does from the lobby.
            (msg matches ClientMsg::StartGame {  } && live_sender(*old(self), name@, generation)
                && old(self).stage == RoomStage::Joining && old(self).is_player(name@) && old(self).moderator_is(name@) && old(self).players@.len() >= crate::room::MIN_PLAYERS && old(self).deal_pool() >= old(self).cards_needed()) ==> (r is Ok && final(self).stage
                == RoomStage::ActiveChooses && crate::rounds::round_started(
                *old(self),
                *final(self),
                old(out)@,
                final(out)@,
            )),
            // LeaveRoom: a member is gone and is told so.
            (msg matches ClientMsg::LeaveRoom {  } && live_sender(*old(self), name@, generation)
                && old(self).is_member(name@)) ==> (!final(self).is_member(name@) && exists|k: int|
                old(out)@.len() <= k < final(out)@.len() && (#[trigger] final(out)@[k]
                    matches Outbound::Direct { name: n, msg: m } && n@ == name@ && (
                m matches ServerMsg::LeftRoom { .. }))),
            // KickPlayer: a moderator ejects any member but the creator.
            (msg matches ClientMsg::KickPlayer { player } ==> ((live_sender(
                *old(self),
                name@,
                generation,
            ) && old(self).moderator_is(name@) && crate::text::trim_spec(player@).len() > 0
                && !old(self).creator_is(crate::text::trim_spec(player@)) && old(self).is_member(
                crate::text::trim_spec(player@),
            )) ==> (!final(self).is_member(crate::text::trim_spec(player@)) && exists|k: int|
                old(out)@.len() <= k < final(out)@.len() && (#[trigger] final(out)@[k]
                    matches Outbound::Direct { name: n, msg: m } && n@ == crate::text::trim_spec(
                    player@,
                ) && (m matches ServerMsg::Kicked { .. }))))),
            // SetModerator: promotion lands in the moderator list.
            (msg matches ClientMsg::SetModerator { player, enabled } ==> ((live_sender(
                *old(self),
                name@,
                generation,
            ) && old(self).is_member(name@) && (old(self).creator_is(name@) || old(self).moderator_is(name@)) && crate::text::trim_spec(player@).len() > 0 && old(self).is_member(
                crate::text::trim_spec(player@),
            ) && enabled) ==> (str_in(final(self).moderators@, crate::text::trim_spec(player@))
                && state_broadcast_appended(old(out)@, final(out)@)))),
            // SetObserver: a non-storyteller player steps aside mid-round.
            (msg matches ClientMsg::SetObserver { player, enabled } ==> ((live_sender(
                *old(self),
                name@,
                generation,
            ) && (old(self).stage == RoomStage::ActiveChooses || old(self).stage
                == RoomStage::PlayersChoose || old(self).stage == RoomStage::Voting)
                && crate::text::trim_spec(player@).len() > 0 && old(self).is_player(
                crate::text::trim_spec(player@),
            ) && (crate::text::trim_spec(player@) == name@ || old(self).moderator_is(name@))
                && enabled && old(self).player_order@.len() > 0 && crate::text::trim_spec(player@)
                != old(self).active_name()) ==> (!final(self).is_player(
                crate::text::trim_spec(player@),
            ) && final(self).is_observer(crate::text::trim_spec(player@))))),
            // SetAllowMidgameJoin: the flag follows the request mid-game.
            (msg matches ClientMsg::SetAllowMidgameJoin { enabled } ==> ((live_sender(
                *old(self),
                name@,
                generation,
            ) && old(self).moderator_is(name@) && old(self).stage != RoomStage::Joining && old(self).stage != RoomStage::End) ==> (final(self).allow_new_players_midgame == enabled
                && state_broadcast_appended(old(out)@, final(out)@)))),
            // ResumeGame: a moderator restarts a paused game that can go on.
            (msg matches ClientMsg::ResumeGame {  } && live_sender(*old(self), name@, generation)
                && old(self).stage == RoomStage::Paused && old(self).moderator_is(name@) && old(self).players@.len() >= crate::room::MIN_PLAYERS && old(self).deal_pool()
                >= old(self).cards_needed()) ==> (r is Ok && final(self).stage
                == RoomStage::ActiveChooses && crate::rounds::round_started(
                *old(self),
                *final(self),
                old(out)@,
                final(out)@,
            )),
            // A refused resume answers the moderator and moves nothing.
            (msg matches ClientMsg::ResumeGame {  } && live_sender(*old(self), name@, generation)
                && old(self).stage == RoomStage::Paused && old(self).moderator_is(name@) && old(self).players@.len() < crate::room::MIN_PLAYERS) ==> (r is Ok && refused_in_place(
                *old(self),
                *final(self),
                old(out)@,
                final(out)@,
                name@,
                "Need at least 3 non-observer players to resume"@,
            )),
            // RequestJoinFromObserver: the wish is recorded on the record.
            (msg matches ClientMsg::RequestJoinFromObserver {  } && live_sender(
                *old(self),
                name@,
                generation,
            ) && has_key(old(self).observers@, name@)) ==> (value_of(
                final(self).observers@,
                name@,
            ) == (ObserverInfo {
                join_requested: true,
                auto_join_on_next_round: false,
                ..value_of(old(self).observers@, name@)
            }) && state_broadcast_appended(old(out)@, final(out)@)),
            // ActivePlayerChooseCard: the storyteller opens the round.
            (msg matches ClientMsg::ActivePlayerChooseCard { card, description } ==> ((
            live_sender(*old(self), name@, generation) && old(self).stage
                == RoomStage::ActiveChooses && old(self).is_player(name@) && old(self).player_order@.len() > 0 && name@ == old(self).active_name() && has_key(
                old(self).player_hand@,
                name@,
            ) && str_in(value_of(old(self).player_hand@, name@)@, card@) && crate::text::trim_spec(
                description@,
            ).len() > 0) ==> (final(self).current_description@ == crate::text::trim_spec(
                description@,
            ) && final(self).player_to_current_card@.len() == 1 && has_key(
                final(self).player_to_current_card@,
                name@,
            ) && value_of(final(self).player_to_current_card@, name@)@ == card@
                && submissions_opened(*final(self), old(out)@, final(out)@)))),
            // An invalid storyteller submission is refused in place.
            (msg matches ClientMsg::ActivePlayerChooseCard { card, description } ==> ((
            live_sender(*old(self), name@, generation) && active_turn(*old(self), name@)
                && !holds_card(*old(self), name@, card@)) ==> (r is Ok && refused_in_place(
                *old(self),
                *final(self),
                old(out)@,
                final(out)@,
                name@,
                "Invalid card"@,
            )))),
            // An empty description is refused in place.
            (msg matches ClientMsg::ActivePlayerChooseCard { card, description } ==> ((
            live_sender(*old(self), name@, generation) && active_turn(*old(self), name@)
                && holds_card(*old(self), name@, card@) && crate::text::trim_spec(
                description@,
            ).len() == 0) ==> (r is Ok && refused_in_place(
                *old(self),
                *final(self),
                old(out)@,
                final(out)@,
                name@,
                "Description must not be empty"@,
            )))),
            // A submission of a card the player does not hold is refused.
            (msg matches ClientMsg::PlayerChooseCard { card } ==> ((live_sender(
                *old(self),
                name@,
                generation,
            ) && choosing_turn(*old(self), name@) && !holds_card(*old(self), name@, card@)) ==> (
            r is Ok && refused_in_place(
                *old(self),
                *final(self),
                old(out)@,
                final(out)@,
                name@,
                "Invalid card"@,
            )))),
            // A vote for a card outside the center is refused.
            (msg matches ClientMsg::Vote { card } ==> ((live_sender(*old(self), name@, generation)
                && voting_turn(*old(self), name@) && !in_center(*old(self), card@)) ==> (r is Ok
                && refused_in_place(
                *old(self),
                *final(self),
                old(out)@,
                final(out)@,
                name@,
                "Invalid card"@,
            )))),
            // PlayerChooseCard: a valid submission lands in the center.
            (msg matches ClientMsg::PlayerChooseCard { card } ==> ((live_sender(
                *old(self),
                name@,
                generation,
            ) && old(self).stage == RoomStage::PlayersChoose && old(self).is_player(name@) && old(self).player_order@.len() > 0 && name@ != old(self).active_name() && has_key(
                old(self).player_hand@,
                name@,
            ) && str_in(value_of(old(self).player_hand@, name@)@, card@)) ==> (has_key(
                final(self).player_to_current_card@,
                name@,
            ) && value_of(final(self).player_to_current_card@, name@)@ == card@
                && state_broadcast_appended(old(out)@, final(out)@)))),
            // Vote: a valid vote is recorded and everyone hears the change.
            (msg matches ClientMsg::Vote { card } ==> ((live_sender(*old(self), name@, generation)
                && old(self).stage == RoomStage::Voting && old(self).is_player(name@) && old(self).player_order@.len() > 0 && name@ != old(self).active_name() && (exists|i: int|
                0 <= i < old(self).player_to_current_card@.len() && (
                #[trigger] old(self).player_to_current_card@[i]).1@ == card@) && !(has_key(
                old(self).player_to_current_card@,
                name@,
            ) && value_of(old(self).player_to_current_card@, name@)@ == card@)) ==> (has_key(
                final(self).player_to_vote@,
                name@,
            ) && value_of(final(self).player_to_vote@, name@)@ == card@
                && state_broadcast_appended(old(out)@, final(out)@)))),
    {
        let current = match read_entry(&self.connection_generation, name) {
            Some(g) => *g == generation,
            None => false,
        };
        if !current {
            return Ok(());
        }
        let now_s = crate::sys::get_time_s();
        if self.maybe_promote_moderator(now_s) {
            let state_msg = self.room_state();
            out.push(Outbound::Broadcast(state_msg));
        }
        proof {
            // Promotion leaves every field the dispatch cases read alone,
            // and a member's moderator standing survives it.
            assert(self.players == old(self).players);
            assert(self.observers == old(self).observers);
            assert(self.player_order == old(self).player_order);
            assert(self.deck == old(self).deck);
            assert(self.discard_pile == old(self).discard_pile);
            assert(self.deal_pool() == old(self).deal_pool());
            assert(self.cards_needed() == old(self).cards_needed());
            if old(self).moderator_is(name@) {
                assert(self.moderator_is(name@));
            }
        }
        let ghost mid = *self;
        let ghost outm = out@;
        let is_ping = match &msg {
            ClientMsg::Ping {  } => true,
            _ => false,
        };
        if !is_ping && !self.member_exists(name) {
            return Ok(());
        }
        match msg {
            ClientMsg::Ready {  } => {
                let res = self.on_ready(name, out);
                proof {
                    if mid.stage == RoomStage::Joining && mid.is_player(name@) && mid.moderator_is(
                        name@,
                    ) && mid.players@.len() >= crate::room::MIN_PLAYERS && mid.deal_pool()
                        >= mid.cards_needed() {
                        crate::rounds::lemma_round_started_weaken(
                            *old(self),
                            mid,
                            *self,
                            old(out)@,
                            outm,
                            out@,
                        );
                    }
                }
                res
            },
            ClientMsg::StartGame {  } => {
                let res = self.on_start_game(name, out);
                proof {
                    if mid.stage == RoomStage::Joining && mid.is_player(name@) && mid.moderator_is(
                        name@,
                    ) && mid.players@.len() >= crate::room::MIN_PLAYERS && mid.deal_pool()
                        >= mid.cards_needed() {
                        crate::rounds::lemma_round_started_weaken(
                            *old(self),
                            mid,
                            *self,
                            old(out)@,
                            outm,
                            out@,
                        );
                    }
                }
                res
            },
            ClientMsg::LeaveRoom {  } => self.on_leave(name, out),
            ClientMsg::KickPlayer { player } => self.on_kick(name, &player, out),
            ClientMsg::SetModerator { player, enabled } => {
                self.on_set_moderator(name, &player, enabled, out);
                Ok(())
            },
            ClientMsg::SetObserver { player, enabled } => self.on_set_observer(
                name,
                &player,
                enabled,
                out,
            ),
            ClientMsg::SetAllowMidgameJoin { enabled } => {
                self.on_set_allow_midgame(name, enabled, out);
                Ok(())
            },
            ClientMsg::ResumeGame {  } => {
                let res = self.on_resume(name, out);
                proof {
                    if mid.stage == RoomStage::Paused && mid.moderator_is(name@)
                        && mid.players@.len() >= crate::room::MIN_PLAYERS && mid.deal_pool()
                        >= mid.cards_needed() {
                        crate::rounds::lemma_round_started_weaken(
                            *old(self),
                            mid,
                            *self,
                            old(out)@,
                            outm,
                            out@,
                        );
                    }
                }
                res
            },
            ClientMsg::RequestJoinFromObserver {  } => {
                self.on_request_join(name, out);
                Ok(())
            },
            ClientMsg::ActivePlayerChooseCard { card, description } => {
                self.on_active_choose(name, card, &description, out);
                proof {
                    if active_turn(mid, name@) && holds_card(mid, name@, card@)
                        && crate::text::trim_spec(description@).len() > 0 {
                        lemma_submissions_opened_weaken(*self, old(out)@, outm, out@);
                    }
                }
                Ok(())
            },
            ClientMsg::PlayerChooseCard { card } => self.on_player_choose(name, card, out),
            ClientMsg::Vote { card } => self.on_vote(name, card, out),
            ClientMsg::Ping {  } => Ok(()),
        }
    }
}

fn msg_need_players() -> (r: String)
    ensures
        r@ == "Need at least 3 players"@,
{
    let s: &str = "Need at least 3 players";
    s.to_owned()
}

fn msg_need_players_resume() -> (r: String)
    ensures
        r@ == "Need at least 3 non-observer players to resume"@,
{
    let s: &str = "Need at least 3 non-observer players to resume";
    s.to_owned()
}

fn msg_only_moderators_start() -> (r: String)
    ensures
        r@ == "Only moderators can start"@,
{
    let s: &str = "Only moderators can start";
    s.to_owned()
}

fn msg_only_moderators_kick() -> (r: String)
    ensures
        r@ == "Only moderators can kick players"@,
{
    let s: &str = "Only moderators can kick players";
    s.to_owned()
}

fn msg_only_moderators_promote() -> (r: String)
    ensures
        r@ == "Only moderators can promote moderators"@,
{
    let s: &str = "Only moderators can promote moderators";
    s.to_owned()
}

fn msg_only_creator_demotes() -> (r: String)
    ensures
        r@ == "Only the creator can demote moderators"@,
{
    let s: &str = "Only the creator can demote moderators";
    s.to_owned()
}

fn msg_creator_moderator() -> (r: String)
    ensures
        r@ == "Creator must remain a moderator"@,
{
    let s: &str = "Creator must remain a moderator";
    s.to_owned()
}

fn msg_creator_kick() -> (r: String)
    ensures
        r@ == "The creator cannot be kicked"@,
{
    let s: &str = "The creator cannot be kicked";
    s.to_owned()
}

fn msg_only_moderators_change() -> (r: String)
    ensures
        r@ == "Only moderators can change other players"@,
{
    let s: &str = "Only moderators can change other players";
    s.to_owned()
}

fn msg_only_moderators_midgame() -> (r: String)
    ensures
        r@ == "Only moderators can change midgame join settings"@,
{
    let s: &str = "Only moderators can change midgame join settings";
    s.to_owned()
}

fn msg_only_moderators_resume() -> (r: String)
    ensures
        r@ == "Only moderators can resume the game"@,
{
    let s: &str = "Only moderators can resume the game";
    s.to_owned()
}

fn msg_storyteller_observer() -> (r: String)
    ensures
        r@ == "Storyteller cannot become observer this round"@,
{
    let s: &str = "Storyteller cannot become observer this round";
    s.to_owned()
}

fn msg_left_game() -> (r: String)
    ensures
        r@ == "You left the game"@,
{
    let s: &str = "You left the game";
    s.to_owned()
}

fn msg_kicked() -> (r: String)
    ensures
        r@ == "You were kicked from the game"@,
{
    let s: &str = "You were kicked from the game";
    s.to_owned()
}

fn msg_invalid_card() -> (r: String)
    ensures
        r@ == "Invalid card"@,
{
    let s: &str = "Invalid card";
    s.to_owned()
}

fn msg_description_empty() -> (r: String)
    ensures
        r@ == "Description must not be empty"@,
{
    let s: &str = "Description must not be empty";
    s.to_owned()
}

fn msg_active_cannot_vote() -> (r: String)
    ensures
        r@ == "Active player cannot vote"@,
{
    let s: &str = "Active player cannot vote";
    s.to_owned()
}

fn msg_own_card() -> (r: String)
    ensures
        r@ == "You cannot vote for your own card"@,
{
    let s: &str = "You cannot vote for your own card";
    s.to_owned()
}

} // verus!
