//! The broadcast snapshot: every transition ends by sending the full
//! room state, so a client that missed intermediate messages can always
//! recover from the latest one.

use vstd::prelude::*;
use crate::cards::card_bag;
use crate::engine::vals_bag;
use crate::msgs::{RoomStage, RoomStateMsg, ServerMsg};
use crate::room::Room;
use crate::tbl::{
    clone_table, clone_str_list, clone_str_table, has_key, value_of, unique_keys, read_entry,
    lemma_key_subset_len,
};
use crate::text::str_eq;

verus! {

impl Room {
    /// What the broadcast snapshot holds: each field is a pure function
    /// of the room state, so the latest snapshot alone determines what a
    /// client renders.
    pub open spec fn room_state_matches(self, m: RoomStateMsg) -> bool {
        &&& m.room_id == self.room_id
        &&& m.players@ == self.players@
        &&& m.observers@ == self.observers@
        &&& m.creator == self.creator
        &&& m.moderators@ == self.moderators@
        &&& m.stage == self.stage
        &&& m.active_player == (if self.player_order@.len() > 0 {
            Some(self.player_order@[self.active_player as int])
        } else {
            None::<String>
        })
        &&& m.player_order@ == self.player_order@
        &&& m.round == self.round
        &&& m.cards_remaining == self.deck@.len()
        &&& m.deck_refill_count == self.deck_refill_count
        &&& m.win_condition == self.win_condition
        &&& m.allow_new_players_midgame == self.allow_new_players_midgame
        &&& m.paused_reason == self.paused_reason
    }

    /// A broadcast payload is the snapshot of this room.
    pub open spec fn is_room_state_of(self, msg: ServerMsg) -> bool {
        match msg {
            ServerMsg::RoomState(m) => self.room_state_matches(m),
            _ => false,
        }
    }

    /// Build the broadcast snapshot.
    pub fn room_state(&self) -> (r: ServerMsg)
        requires
            self.wf(),
        ensures
            self.is_room_state_of(r),
    {
        let active_player: Option<String> = if self.player_order.len() > 0 {
            if self.active_player < self.player_order.len() {
                Some(self.player_order[self.active_player].clone())
            } else {
                Some(self.player_order[0].clone())
            }
        } else {
            None
        };
        let creator: Option<String> = match &self.creator {
            Some(c) => Some(c.clone()),
            None => None,
        };
        let paused_reason: Option<String> = match &self.paused_reason {
            Some(p) => Some(p.clone()),
            None => None,
        };
        let msg = RoomStateMsg {
            room_id: self.room_id.clone(),
            players: clone_table(&self.players),
            observers: clone_table(&self.observers),
            creator,
            moderators: clone_str_list(&self.moderators),
            stage: self.stage,
            active_player,
            player_order: clone_str_list(&self.player_order),
            round: self.round,
            cards_remaining: self.cards_remaining(),
            deck_refill_count: self.deck_refill_count,
            win_condition: self.win_condition,
            allow_new_players_midgame: self.allow_new_players_midgame,
            paused_reason,
        };
        ServerMsg::RoomState(msg)
    }

    /// Build the snapshot of the current state; the name the callers of
    /// the library use.
    pub fn get_room_state(&self) -> (r: ServerMsg)
        requires
            self.wf(),
        ensures
            self.is_room_state_of(r),
    {
        self.room_state()
    }

    /// The content of the stage-private message owed to member `n`: the
    /// private hand while choosing, the center cards while voting, the
    /// scores at the end of a round.
    pub open spec fn stage_msg_of(self, n: Seq<char>, m: ServerMsg) -> bool {
        match self.stage {
            RoomStage::ActiveChooses => has_key(self.player_hand@, n) && (
            m matches ServerMsg::StartRound { hand } && hand@ == value_of(
                self.player_hand@,
                n,
            )@),
            RoomStage::PlayersChoose => has_key(self.player_hand@, n) && (
            m matches ServerMsg::PlayersChoose { description, hand } && description
                == self.current_description && hand@ == value_of(self.player_hand@, n)@),
            RoomStage::Voting => (m matches ServerMsg::BeginVoting {
                center_cards,
                description,
                disabled_card,
            } && center_cards@.len() == self.player_to_current_card@.len() && card_bag(
                center_cards@,
            ) == vals_bag(self.player_to_current_card@) && description == self.current_description
                && disabled_card == (if n == self.active_name() {
                Option::<String>::None
            } else if has_key(self.player_to_current_card@, n) {
                Option::Some(value_of(self.player_to_current_card@, n))
            } else {
                Option::<String>::None
            })),
            RoomStage::Results => (m matches ServerMsg::Results {
                player_to_vote,
                player_to_current_card,
                active_card,
                point_change,
            } && player_to_vote@ == self.player_to_vote@ && player_to_current_card@
                == self.player_to_current_card@ && active_card@ == self.active_card()
                && unique_keys(point_change@) && (forall|x: Seq<char>|
                #[trigger] has_key(point_change@, x) == (has_key(self.player_to_vote@, x) || x
                    == self.active_name())) && (forall|x: Seq<char>|
                #[trigger] has_key(point_change@, x) ==> value_of(point_change@, x) as int
                    == self.spec_point_change(x))),
            RoomStage::End => m == (ServerMsg::EndGame {  }),
            _ => false,
        }
    }

    /// The stage-specific message for one member: the private hand while
    /// choosing, the center cards while voting, the scores at the end of
    /// a round.  `None` when the stage has nothing to say to `name`.
    pub fn get_msg(&self, name: Option<&str>) -> (r: Option<ServerMsg>)
        requires
            self.wf(),
        ensures
            name matches Some(n) ==> (r matches Some(m) ==> self.stage_msg_of(n@, m)),
            self.stage == RoomStage::ActiveChooses ==> (match r {
                Some(m) => (match name {
                    Some(n) => has_key(self.player_hand@, n@) && (
                    m matches ServerMsg::StartRound { hand } && hand@ == value_of(
                        self.player_hand@,
                        n@,
                    )@),
                    None => false,
                }),
                None => !(name matches Some(n) && has_key(self.player_hand@, n@)),
            }),
            self.stage == RoomStage::PlayersChoose ==> (match r {
                Some(m) => (match name {
                    Some(n) => has_key(self.player_hand@, n@) && (
                    m matches ServerMsg::PlayersChoose { description, hand } && description
                        == self.current_description && hand@ == value_of(
                        self.player_hand@,
                        n@,
                    )@),
                    None => false,
                }),
                None => !(name matches Some(n) && has_key(self.player_hand@, n@)),
            }),
            self.stage == RoomStage::Voting ==> (r matches Some(m) && (
            m matches ServerMsg::BeginVoting { center_cards, description, disabled_card }
                && center_cards@.len() == self.player_to_current_card@.len() && card_bag(
                center_cards@,
            ) == vals_bag(self.player_to_current_card@) && description
                == self.current_description && disabled_card == (match name {
                Some(n) => if n@ == self.active_name() {
                    None
                } else if has_key(self.player_to_current_card@, n@) {
                    Some(value_of(self.player_to_current_card@, n@))
                } else {
                    None::<String>
                },
                None => None::<String>,
            }))),
            self.stage == RoomStage::Results ==> (r matches Some(m) && (
            m matches ServerMsg::Results {
                player_to_vote,
                player_to_current_card,
                active_card,
                point_change,
            } && player_to_vote@ == self.player_to_vote@ && player_to_current_card@
                == self.player_to_current_card@ && active_card@ == self.active_card()
                && unique_keys(point_change@) && (forall|x: Seq<char>|
                #[trigger] has_key(point_change@, x) == (has_key(self.player_to_vote@, x) || x
                    == self.active_name())) && (forall|x: Seq<char>|
                #[trigger] has_key(point_change@, x) ==> value_of(point_change@, x) as int
                    == self.spec_point_change(x)))),
            (self.stage == RoomStage::Joining || self.stage == RoomStage::Paused) ==> r is None,
            self.stage == RoomStage::End ==> r == Some(ServerMsg::EndGame {  }),
    {
        match self.stage {
            RoomStage::ActiveChooses => match name {
                Some(n) => match read_entry(&self.player_hand, n) {
                    Some(h) => Some(ServerMsg::StartRound { hand: clone_str_list(h) }),
                    None => None,
                },
                None => None,
            },
            RoomStage::PlayersChoose => match name {
                Some(n) => match read_entry(&self.player_hand, n) {
                    Some(h) => Some(
                        ServerMsg::PlayersChoose {
                            description: self.current_description.clone(),
                            hand: clone_str_list(h),
                        },
                    ),
                    None => None,
                },
                None => None,
            },
            RoomStage::Voting => {
                let center_cards = self.get_center_cards();
                let description = self.current_description.clone();
                let disabled_card: Option<String> = match name {
                    Some(n) => {
                        if str_eq(n, self.player_order[self.active_player].as_str()) {
                            None
                        } else {
                            match read_entry(&self.player_to_current_card, n) {
                                Some(c) => Some(c.clone()),
                                None => None,
                            }
                        }
                    },
                    None => None,
                };
                Some(ServerMsg::BeginVoting { center_cards, description, disabled_card })
            },
            RoomStage::Results => {
                proof {
                    lemma_key_subset_len(self.player_to_vote@, self.players@);
                }
                let point_change = self.compute_results();
                let active_card = match read_entry(
                    &self.player_to_current_card,
                    self.player_order[self.active_player].as_str(),
                ) {
                    Some(c) => c.clone(),
                    None => {
                        proof {
                            assert(false);
                        }
                        String::new()
                    },
                };
                Some(
                    ServerMsg::Results {
                        player_to_vote: clone_str_table(&self.player_to_vote),
                        player_to_current_card: clone_str_table(&self.player_to_current_card),
                        active_card,
                        point_change,
                    },
                )
            },
            RoomStage::Joining => None,
            RoomStage::Paused => None,
            RoomStage::End => Some(ServerMsg::EndGame {  }),
        }
    }

    /// How many cards are left on the draw pile.
    pub fn cards_remaining(&self) -> (r: u32)
        requires
            self.wf(),
        ensures
            r == self.deck@.len(),
    {
        proof {
            self.lemma_deck_within_base();
        }
        self.deck.len() as u32
    }

    /// Conservation bounds the draw and discard piles by the base deck.
    pub proof fn lemma_deck_within_base(self)
        requires
            self.wf_cards(),
        ensures
            self.deck@.len() <= self.base_deck@.len(),
            self.discard_pile@.len() <= self.base_deck@.len(),
    {
        broadcast use vstd::multiset::group_multiset_axioms, vstd::seq_lib::group_to_multiset_ensures;

        assert(crate::names::strs_of(self.deck@).len() == self.deck@.len());
        assert(crate::names::strs_of(self.discard_pile@).len() == self.discard_pile@.len());
        assert(crate::names::strs_of(self.base_deck@).len() == self.base_deck@.len());
        assert(self.placed_cards().len() == crate::cards::card_bag(self.deck@).len()
            + crate::cards::card_bag(self.discard_pile@).len() + crate::cards::hands_bag(
            self.player_hand@,
        ).len());
        assert(crate::cards::hands_bag(self.player_hand@).len() >= 0);
    }
}

} // verus!
