//! The authoritative state of one game room, its well-formedness
//! invariant, and the basic queries over it.
//!
//! Every mutating operation of the library requires `wf()` and ensures it
//! again, so the invariants — card conservation, the hand bound, no self
//! votes, the active player never among the voters, the turn order
//! matching the player set — hold in every reachable state.

use vstd::prelude::*;
use vstd::multiset::Multiset;
use crate::cards::{card_bag, hands_bag};
use crate::msgs::{ObserverInfo, PlayerInfo, RoomStage, WinCondition};
use crate::names::{str_at, str_in, strs_unique, lemma_str_in_push, contains_str, insert_str};
use crate::tbl::{
    has_key, key_at, unique_keys, value_of, read_entry, has_entry,
    lemma_index_of_key, lemma_key_index_valid, lemma_same_keys, lemma_list_table_same_len,
};
use crate::text::string_eq_str;

verus! {

/// How many players are ready.
pub open spec fn count_ready(s: Seq<(String, PlayerInfo)>) -> int
    decreases s.len(),
{
    if s.len() == 0 {
        0
    } else {
        count_ready(s.drop_last()) + if s.last().1.ready {
            1int
        } else {
            0int
        }
    }
}

/// Every player is ready.
pub open spec fn all_ready(s: Seq<(String, PlayerInfo)>) -> bool {
    forall|i: int| 0 <= i < s.len() ==> (#[trigger] s[i]).1.ready
}

pub proof fn lemma_count_ready_bounds(s: Seq<(String, PlayerInfo)>)
    ensures
        0 <= count_ready(s) <= s.len(),
    decreases s.len(),
{
    if s.len() > 0 {
        lemma_count_ready_bounds(s.drop_last());
    }
}

/// Nobody is ready exactly when the count is zero.
pub proof fn lemma_count_ready_none(s: Seq<(String, PlayerInfo)>)
    requires
        forall|i: int| 0 <= i < s.len() ==> !(#[trigger] s[i]).1.ready,
    ensures
        count_ready(s) == 0,
    decreases s.len(),
{
    if s.len() > 0 {
        assert(forall|i: int|
            0 <= i < s.len() - 1 ==> !(#[trigger] s.drop_last()[i]).1.ready);
        lemma_count_ready_none(s.drop_last());
    }
}

/// The points column of the player table.
pub open spec fn player_points(s: Seq<(String, PlayerInfo)>) -> Seq<u16> {
    Seq::new(s.len(), |i: int| s[i].1.points)
}

/// The points column of the observer table.
pub open spec fn observer_points(s: Seq<(String, ObserverInfo)>) -> Seq<u16> {
    Seq::new(s.len(), |i: int| s[i].1.points)
}

/// The least element of a non-empty sequence.
pub open spec fn seq_min_u16(s: Seq<u16>) -> u16
    recommends
        s.len() > 0,
    decreases s.len(),
{
    if s.len() <= 1 {
        s[0]
    } else {
        let m = seq_min_u16(s.drop_last());
        if s.last() < m {
            s.last()
        } else {
            m
        }
    }
}

/// Host migration starts after this many seconds without a connected
/// moderator.
pub const MODERATOR_ABSENCE_PROMOTION_DELAY_S: u64 = 300;

/// A full hand.
pub const HAND_SIZE: usize = 6;

/// Rounds cannot run with fewer players than this.
pub const MIN_PLAYERS: usize = 3;

/// The authoritative state of one room.
pub struct Room {
    pub room_id: String,
    /// Lobby creator; kept until that name is removed.
    pub creator: Option<String>,
    /// Names with moderation privileges; the creator always belongs here
    /// while present.
    pub moderators: Vec<String>,
    /// When no moderator has been connected, since when.
    pub no_connected_moderator_since_s: Option<u64>,
    /// Names removed explicitly (leave or kick), so that their eventual
    /// disconnect is a no-op.
    pub removed_players: Vec<String>,
    /// Members watching but not playing.
    pub observers: Vec<(String, ObserverInfo)>,
    /// Stable per-name secret for reconnecting.
    pub name_tokens: Vec<(String, String)>,
    /// The generation of the one live session per name.
    pub connection_generation: Vec<(String, u64)>,
    pub next_generation: u64,
    /// Whether new names may join as players while a game runs.
    pub allow_new_players_midgame: bool,
    /// Why the room is paused, when it is.
    pub paused_reason: Option<String>,
    /// The players of the current game.
    pub players: Vec<(String, PlayerInfo)>,
    /// Up to six cards per player.
    pub player_hand: Vec<(String, Vec<String>)>,
    /// The draw pile.
    pub deck: Vec<String>,
    pub stage: RoomStage,
    /// Rounds played so far, counting the running one.
    pub round: u16,
    /// Turn rotation; always the players, in order.
    pub player_order: Vec<String>,
    /// Index of the storyteller in `player_order`.
    pub active_player: usize,
    /// Cards that left hands, awaiting reshuffle into the deck.
    pub discard_pile: Vec<String>,
    /// The storyteller's description for the running round.
    pub current_description: String,
    /// The storyteller's card, and each other player's submitted match.
    pub player_to_current_card: Vec<(String, String)>,
    /// Each non-active player's vote.
    pub player_to_vote: Vec<(String, String)>,
    pub win_condition: WinCondition,
    /// How often the draw pile was refilled.
    pub deck_refill_count: u32,
    /// The immutable full deck the room was created with.
    pub base_deck: Vec<String>,
    /// Cap on players plus observers.
    pub max_members: usize,
}

impl Room {
    /// `n` is a player.
    pub open spec fn is_player(self, n: Seq<char>) -> bool {
        has_key(self.players@, n)
    }

    /// `n` is an observer.
    pub open spec fn is_observer(self, n: Seq<char>) -> bool {
        has_key(self.observers@, n)
    }

    /// `n` is in the room.
    pub open spec fn is_member(self, n: Seq<char>) -> bool {
        self.is_player(n) || self.is_observer(n)
    }

    /// `n` is the creator.
    pub open spec fn creator_is(self, n: Seq<char>) -> bool {
        match self.creator {
            Some(c) => c@ == n,
            None => false,
        }
    }

    /// `n` holds moderation privileges.
    pub open spec fn moderator_is(self, n: Seq<char>) -> bool {
        self.is_member(n) && str_in(self.moderators@, n)
    }

    /// The storyteller's name.
    pub open spec fn active_name(self) -> Seq<char>
        recommends
            self.player_order@.len() > 0,
    {
        str_at(self.player_order@, self.active_player as int)
    }

    /// The stages in which a round is underway.
    pub open spec fn round_running(self) -> bool {
        self.stage == RoomStage::ActiveChooses || self.stage == RoomStage::PlayersChoose
            || self.stage == RoomStage::Voting || self.stage == RoomStage::Results
    }

    /// Every card the room tracks: draw pile, discard pile, and hands.
    pub open spec fn placed_cards(self) -> Multiset<Seq<char>> {
        card_bag(self.deck@).add(card_bag(self.discard_pile@)).add(hands_bag(self.player_hand@))
    }

    /// The bag of cards of the base deck.
    pub open spec fn base_bag(self) -> Multiset<Seq<char>> {
        card_bag(self.base_deck@)
    }

    /// Keys of every table are pairwise distinct, as are the name lists.
    pub open spec fn wf_tables(self) -> bool {
        &&& unique_keys(self.players@)
        &&& unique_keys(self.observers@)
        &&& unique_keys(self.player_hand@)
        &&& unique_keys(self.name_tokens@)
        &&& unique_keys(self.connection_generation@)
        &&& unique_keys(self.player_to_current_card@)
        &&& unique_keys(self.player_to_vote@)
        &&& strs_unique(self.moderators@)
        &&& strs_unique(self.removed_players@)
        &&& strs_unique(self.player_order@)
    }

    /// The turn order holds players only, covers all of them once the
    /// lobby stage is over, and the active index stays in range.
    pub open spec fn wf_order(self) -> bool {
        &&& forall|i: int|
            0 <= i < self.player_order@.len() ==> self.is_player(
                #[trigger] str_at(self.player_order@, i),
            )
        &&& self.stage != RoomStage::Joining ==> forall|x: Seq<char>|
            #[trigger] has_key(self.players@, x) ==> str_in(self.player_order@, x)
        &&& self.player_order@.len() == 0 ==> self.active_player == 0
        &&& self.player_order@.len() > 0 ==> self.active_player < self.player_order@.len()
    }

    /// Membership: players and observers are disjoint, moderators are
    /// members, the creator moderates while present, and the room is
    /// never over capacity.
    pub open spec fn wf_members(self) -> bool {
        &&& forall|x: Seq<char>| !(#[trigger] has_key(self.players@, x) && has_key(
            self.observers@,
            x,
        ))
        &&& forall|i: int|
            0 <= i < self.moderators@.len() ==> self.is_member(
                #[trigger] str_at(self.moderators@, i),
            )
        &&& match self.creator {
            Some(c) => self.is_member(c@) ==> str_in(self.moderators@, c@),
            None => true,
        }
        &&& self.players@.len() + self.observers@.len() <= self.max_members
        &&& self.max_members <= 0xFFFC
    }

    /// Card conservation: the draw pile, the discard pile and the hands
    /// together hold exactly the base deck, whose entries are distinct.
    /// Hands belong to players and never exceed six cards.
    pub open spec fn wf_cards(self) -> bool {
        &&& self.placed_cards() == self.base_bag()
        &&& strs_unique(self.base_deck@)
        &&& self.base_deck@.len() <= u32::MAX
        &&& forall|x: Seq<char>| #[trigger] has_key(self.player_hand@, x) ==> self.is_player(x)
        &&& forall|i: int|
            0 <= i < self.player_hand@.len() ==> (#[trigger] self.player_hand@[i]).1@.len()
                <= HAND_SIZE
    }

    /// Where the submitted cards live in each stage: in the submitters'
    /// hands until voting starts, then on the discard pile.
    pub open spec fn wf_submissions(self) -> bool {
        &&& forall|x: Seq<char>|
            #[trigger] has_key(self.player_to_current_card@, x) ==> self.is_player(x)
        &&& forall|i: int, j: int|
            0 <= i < j < self.player_to_current_card@.len()
                ==> (#[trigger] self.player_to_current_card@[i]).1@
                != (#[trigger] self.player_to_current_card@[j]).1@
        &&& (self.stage == RoomStage::Joining || self.stage == RoomStage::ActiveChooses
            || self.stage == RoomStage::Paused) ==> self.player_to_current_card@.len() == 0
        &&& self.stage == RoomStage::PlayersChoose ==> forall|i: int|
            0 <= i < self.player_to_current_card@.len() ==> has_key(
                self.player_hand@,
                #[trigger] key_at(self.player_to_current_card@, i),
            ) && str_in(
                value_of(self.player_hand@, key_at(self.player_to_current_card@, i))@,
                self.player_to_current_card@[i].1@,
            )
        &&& (self.stage == RoomStage::Voting || self.stage == RoomStage::Results || self.stage
            == RoomStage::End) ==> forall|i: int|
            0 <= i < self.player_to_current_card@.len() ==> str_in(
                self.discard_pile@,
                (#[trigger] self.player_to_current_card@[i]).1@,
            )
    }

    /// Votes: cast by players, never for the voter's own submission, and
    /// only once a round has reached voting.
    pub open spec fn wf_votes(self) -> bool {
        &&& forall|x: Seq<char>|
            #[trigger] has_key(self.player_to_vote@, x) ==> self.is_player(x)
        &&& (self.stage == RoomStage::Voting || self.stage == RoomStage::Results || self.stage
            == RoomStage::End) || self.player_to_vote@.len() == 0
        &&& forall|i: int|
            0 <= i < self.player_to_vote@.len() ==> (has_key(
                self.player_to_current_card@,
                #[trigger] key_at(self.player_to_vote@, i),
            ) ==> self.player_to_vote@[i].1@ != value_of(
                self.player_to_current_card@,
                key_at(self.player_to_vote@, i),
            )@)
    }

    /// Stored generations never exceed the counter.
    pub open spec fn wf_generations(self) -> bool {
        forall|i: int|
            0 <= i < self.connection_generation@.len()
                ==> (#[trigger] self.connection_generation@[i]).1 <= self.next_generation
    }

    /// The stage-independent part of the room invariant: what survives a
    /// membership change before the stage machinery has reacted to it.
    pub open spec fn wf_base(self) -> bool {
        &&& self.wf_tables()
        &&& self.wf_order()
        &&& self.wf_members()
        &&& self.wf_cards()
        &&& self.wf_submissions()
        &&& self.wf_votes()
        &&& self.wf_generations()
    }

    /// Stage coherence: the storyteller has submitted once the round is
    /// past choosing, never votes, and every other player has voted by
    /// the results stage.
    pub open spec fn stage_coherent(self) -> bool {
        &&& (self.stage == RoomStage::PlayersChoose || self.stage == RoomStage::Voting
            || self.stage == RoomStage::Results) ==> (self.player_order@.len() > 0 && has_key(
            self.player_to_current_card@,
            self.active_name(),
        ))
        &&& (self.stage == RoomStage::Voting || self.stage == RoomStage::Results) ==> forall|
            x: Seq<char>,
        |
            #[trigger] has_key(self.player_to_vote@, x) ==> x != self.active_name()
        &&& self.stage == RoomStage::Results ==> forall|x: Seq<char>|
            #[trigger] has_key(self.players@, x) && x != self.active_name() ==> has_key(
                self.player_to_vote@,
                x,
            )
    }

    /// The stage-coherence part of the invariant, together with the
    /// quorum: rounds never run with fewer than three players.
    pub open spec fn wf_coherent(self) -> bool {
        &&& self.stage_coherent()
        &&& self.round_running() ==> self.players@.len() >= MIN_PLAYERS
    }

    /// The room invariant.
    pub open spec fn wf(self) -> bool {
        &&& self.wf_base()
        &&& self.wf_coherent()
    }

    /// A fresh room: empty membership, the base deck as draw pile.
    pub fn new(
        room_id: &str,
        base_deck: Vec<String>,
        win_condition: WinCondition,
        creator: Option<String>,
        max_members: usize,
    ) -> (r: Room)
        requires
            strs_unique(base_deck@),
            base_deck@.len() <= u32::MAX,
            max_members <= 0xFFFC,
        ensures
            r.wf(),
            r.room_id@ == room_id@,
            r.creator == creator,
            r.stage == RoomStage::Joining,
            r.round == 0,
            r.players@.len() == 0,
            r.observers@.len() == 0,
            r.deck@ == base_deck@,
            r.base_deck@ == base_deck@,
            r.discard_pile@.len() == 0,
            r.win_condition == win_condition,
            r.max_members == max_members,
            r.next_generation == 0,
            r.allow_new_players_midgame,
            r.moderators@.len() == 0,
            r.player_order@.len() == 0,
            r.active_player == 0,
            r.connection_generation@.len() == 0,
            r.name_tokens@.len() == 0,
            r.deck_refill_count == 0,
            r.paused_reason is None,
            r.removed_players@.len() == 0,
            r.current_description@ == Seq::<char>::empty(),
            r.player_hand@.len() == 0,
            r.player_to_current_card@.len() == 0,
            r.player_to_vote@.len() == 0,
    {
        let deck = base_deck.clone();
        let r = Room {
            room_id: room_id.to_owned(),
            creator,
            moderators: Vec::new(),
            no_connected_moderator_since_s: None,
            removed_players: Vec::new(),
            observers: Vec::new(),
            name_tokens: Vec::new(),
            connection_generation: Vec::new(),
            next_generation: 0,
            allow_new_players_midgame: true,
            paused_reason: None,
            players: Vec::new(),
            player_hand: Vec::new(),
            deck,
            stage: RoomStage::Joining,
            round: 0,
            player_order: Vec::new(),
            active_player: 0,
            discard_pile: Vec::new(),
            current_description: String::new(),
            player_to_current_card: Vec::new(),
            player_to_vote: Vec::new(),
            win_condition,
            deck_refill_count: 0,
            base_deck,
            max_members,
        };
        proof {
            broadcast use vstd::multiset::group_multiset_axioms, vstd::seq_lib::group_to_multiset_ensures;

            assert(r.player_hand@.len() == 0);
            assert(hands_bag(r.player_hand@) == Multiset::<Seq<char>>::empty());
            assert(card_bag(r.discard_pile@) == Multiset::<Seq<char>>::empty()) by {
                assert(crate::names::strs_of(r.discard_pile@) =~= Seq::<Seq<char>>::empty());
                assert(Seq::<Seq<char>>::empty().to_multiset() =~= Multiset::<Seq<char>>::empty());
            }
            assert(r.placed_cards() =~= r.base_bag());
        }
        r
    }

    /// Whether `name` is the creator.
    pub fn is_creator(&self, name: &str) -> (r: bool)
        ensures
            r == self.creator_is(name@),
    {
        match &self.creator {
            Some(c) => string_eq_str(c, name),
            None => false,
        }
    }

    /// Whether `name` is in the room at all.
    pub fn member_exists(&self, name: &str) -> (r: bool)
        ensures
            r == self.is_member(name@),
    {
        crate::tbl::has_entry(&self.players, name) || crate::tbl::has_entry(
            &self.observers,
            name,
        )
    }

    /// Whether `name` may moderate.
    pub fn is_moderator(&self, name: &str) -> (r: bool)
        ensures
            r == self.moderator_is(name@),
    {
        self.member_exists(name) && crate::names::contains_str(&self.moderators, name)
    }

    /// Players plus observers.
    pub fn total_members(&self) -> (r: usize)
        requires
            self.players@.len() + self.observers@.len() <= usize::MAX,
        ensures
            r == self.players@.len() + self.observers@.len(),
    {
        self.players.len() + self.observers.len()
    }

    /// The number of non-observer players.
    pub fn non_observer_player_count(&self) -> (r: usize)
        ensures
            r == self.players@.len(),
    {
        self.players.len()
    }

    /// Whether new names may still join as players.
    pub fn can_join_midgame(&self) -> (r: bool)
        ensures
            r == self.allow_new_players_midgame,
    {
        self.allow_new_players_midgame
    }

    /// A name may be used when it is new or comes with its stored token.
    pub open spec fn token_ok(self, name: Seq<char>, token: Seq<char>) -> bool {
        has_key(self.name_tokens@, name) ==> value_of(self.name_tokens@, name)@ == token
    }

    /// Whether `token` proves ownership of `name`.
    pub fn has_valid_token_for_name(&self, name: &str, token: &str) -> (r: bool)
        requires
            self.wf(),
        ensures
            r == self.token_ok(name@, token@),
    {
        match read_entry(&self.name_tokens, name) {
            Some(existing) => string_eq_str(existing, token),
            None => true,
        }
    }

    /// The user-facing reason a room pauses.
    pub fn pause_reason(&self) -> (r: String)
        ensures
            r@ == "Need at least 3 non-observer players. Ask a player to join."@,
    {
        let s: &str = "Need at least 3 non-observer players. Ask a player to join.";
        s.to_owned()
    }

    /// The storyteller's name, when the order is not empty.
    pub fn active_player_name(&self) -> (r: Option<&String>)
        requires
            self.player_order@.len() > 0 ==> self.active_player < self.player_order@.len(),
        ensures
            match r {
                Some(n) => self.player_order@.len() > 0 && n@ == self.active_name(),
                None => self.player_order@.len() == 0,
            },
    {
        if self.active_player < self.player_order.len() {
            Some(&self.player_order[self.active_player])
        } else {
            None
        }
    }

    /// Mint the next connection generation.
    pub fn next_connection_generation(&mut self) -> (r: u64)
        ensures
            *final(self) == (Room { next_generation: final(self).next_generation, ..*old(self) }),
            final(self).next_generation == if old(self).next_generation < u64::MAX {
                old(self).next_generation + 1
            } else {
                old(self).next_generation as int
            },
            r == final(self).next_generation,
    {
        self.next_generation = self.next_generation.saturating_add(1);
        self.next_generation
    }

    /// Whether `n` is connected, reading players first as the room does.
    pub open spec fn member_connected(self, n: Seq<char>) -> bool {
        if self.is_player(n) {
            value_of(self.players@, n).connected
        } else if self.is_observer(n) {
            value_of(self.observers@, n).connected
        } else {
            false
        }
    }

    /// Some moderator is connected.
    pub open spec fn has_connected_moderator_spec(self) -> bool {
        exists|i: int|
            0 <= i < self.moderators@.len() && self.member_connected(
                #[trigger] str_at(self.moderators@, i),
            )
    }

    /// Whether any moderator has a live connection.
    pub fn has_connected_moderator(&self) -> (r: bool)
        requires
            unique_keys(self.players@),
            unique_keys(self.observers@),
        ensures
            r == self.has_connected_moderator_spec(),
    {
        let n = self.moderators.len();
        let mut i: usize = 0;
        while i < n
            invariant
                i <= n,
                n == self.moderators@.len(),
                unique_keys(self.players@),
                unique_keys(self.observers@),
                forall|j: int|
                    0 <= j < i ==> !self.member_connected(#[trigger] str_at(self.moderators@, j)),
            decreases n - i,
        {
            let name = &self.moderators[i];
            proof {
                assert(str_at(self.moderators@, i as int) == name@);
            }
            match read_entry(&self.players, name.as_str()) {
                Some(p) => {
                    if p.connected {
                        proof {
                            assert(self.member_connected(name@));
                        }
                        return true;
                    }
                },
                None => {
                    match read_entry(&self.observers, name.as_str()) {
                        Some(o) => {
                            if o.connected {
                                proof {
                                    assert(self.member_connected(name@));
                                }
                                return true;
                            }
                        },
                        None => {
                        },
                    }
                },
            }
            i = i + 1;
        }
        false
    }

    /// Reset every player's readiness.
    pub fn clear_ready(&mut self)
        requires
            unique_keys(old(self).players@),
        ensures
            *final(self) == (Room { players: final(self).players, ..*old(self) }),
            final(self).players@.len() == old(self).players@.len(),
            unique_keys(final(self).players@),
            forall|i: int|
                0 <= i < old(self).players@.len() ==> final(self).players@[i] == ((
                old(self).players@[i].0,
                PlayerInfo { ready: false, ..old(self).players@[i].1 },
            )),
            forall|x: Seq<char>|
                #[trigger] has_key(final(self).players@, x) == has_key(old(self).players@, x),
            forall|x: Seq<char>|
                #[trigger] has_key(old(self).players@, x) ==> value_of(final(self).players@, x)
                    == (PlayerInfo { ready: false, ..value_of(old(self).players@, x) }),
            count_ready(final(self).players@) == 0,
    {
        let n = self.players.len();
        let mut i: usize = 0;
        while i < n
            invariant
                i <= n,
                n == old(self).players@.len(),
                self.players@.len() == n,
                *self == (Room { players: self.players, ..*old(self) }),
                forall|j: int|
                    0 <= j < i ==> self.players@[j] == ((
                    old(self).players@[j].0,
                    PlayerInfo { ready: false, ..old(self).players@[j].1 },
                )),
                forall|j: int| i <= j < n ==> self.players@[j] == old(self).players@[j],
            decreases n - i,
        {
            self.players[i].1.ready = false;
            i = i + 1;
        }
        proof {
            assert(forall|j: int|
                0 <= j < n ==> #[trigger] key_at(self.players@, j) == key_at(
                    old(self).players@,
                    j,
                ));
            lemma_same_keys(old(self).players@, self.players@);
            assert forall|x: Seq<char>| #[trigger] has_key(old(self).players@, x) implies value_of(
                self.players@,
                x,
            ) == (PlayerInfo { ready: false, ..value_of(old(self).players@, x) }) by {
                lemma_key_index_valid(old(self).players@, x);
                let w = crate::tbl::index_of_key(old(self).players@, x);
                lemma_index_of_key(old(self).players@, x, w);
                assert(key_at(self.players@, w) == x);
                lemma_index_of_key(self.players@, x, w);
            }
            assert(forall|j: int| 0 <= j < n ==> !(#[trigger] self.players@[j]).1.ready);
            lemma_count_ready_none(self.players@);
        }
    }

    /// Drop the running round's artifacts, keeping every hand.
    pub fn reset_round_keep_hands(&mut self)
        requires
            unique_keys(old(self).players@),
        ensures
            *final(self) == (Room {
                current_description: final(self).current_description,
                player_to_current_card: final(self).player_to_current_card,
                player_to_vote: final(self).player_to_vote,
                players: final(self).players,
                ..*old(self)
            }),
            final(self).current_description@ == Seq::<char>::empty(),
            final(self).player_to_current_card@.len() == 0,
            final(self).player_to_vote@.len() == 0,
            final(self).players@.len() == old(self).players@.len(),
            unique_keys(final(self).players@),
            forall|i: int|
                0 <= i < old(self).players@.len() ==> final(self).players@[i] == ((
                old(self).players@[i].0,
                PlayerInfo { ready: false, ..old(self).players@[i].1 },
            )),
            forall|x: Seq<char>|
                #[trigger] has_key(final(self).players@, x) == has_key(old(self).players@, x),
            forall|x: Seq<char>|
                #[trigger] has_key(old(self).players@, x) ==> value_of(final(self).players@, x)
                    == (PlayerInfo { ready: false, ..value_of(old(self).players@, x) }),
            count_ready(final(self).players@) == 0,
    {
        self.current_description = String::new();
        self.player_to_current_card = Vec::new();
        self.player_to_vote = Vec::new();
        self.clear_ready();
    }

    /// How many players are ready.
    pub fn ready_count(&self) -> (r: usize)
        ensures
            r == count_ready(self.players@),
    {
        let n = self.players.len();
        let mut i: usize = 0;
        let mut c: usize = 0;
        while i < n
            invariant
                i <= n,
                n == self.players@.len(),
                c == count_ready(self.players@.subrange(0, i as int)),
                c <= i,
            decreases n - i,
        {
            proof {
                assert(self.players@.subrange(0, i + 1).drop_last() =~= self.players@.subrange(
                    0,
                    i as int,
                ));
                assert(self.players@.subrange(0, i + 1).last() == self.players@[i as int]);
            }
            if self.players[i].1.ready {
                c = c + 1;
            }
            i = i + 1;
        }
        proof {
            assert(self.players@.subrange(0, n as int) =~= self.players@);
        }
        c
    }

    /// Whether every player is ready.
    pub fn players_all_ready(&self) -> (r: bool)
        ensures
            r == all_ready(self.players@),
    {
        let n = self.players.len();
        let mut i: usize = 0;
        while i < n
            invariant
                i <= n,
                n == self.players@.len(),
                forall|j: int| 0 <= j < i ==> (#[trigger] self.players@[j]).1.ready,
            decreases n - i,
        {
            if !self.players[i].1.ready {
                return false;
            }
            i = i + 1;
        }
        true
    }

    /// The score a promoted observer is lifted to at least: the lowest
    /// player score, falling back to the lowest score of anyone, then 0.
    pub fn observer_floor_score(&self) -> (r: u16)
        ensures
            self.players@.len() > 0 ==> r == seq_min_u16(player_points(self.players@)),
            self.players@.len() == 0 && self.observers@.len() > 0 ==> r == seq_min_u16(
                observer_points(self.observers@),
            ),
            self.players@.len() == 0 && self.observers@.len() == 0 ==> r == 0,
    {
        if self.players.len() > 0 {
            let ghost pts = player_points(self.players@);
            let n = self.players.len();
            let mut m = self.players[0].1.points;
            let mut i: usize = 1;
            proof {
                assert(pts.subrange(0, 1)[0] == pts[0]);
            }
            while i < n
                invariant
                    1 <= i <= n,
                    n == self.players@.len(),
                    pts == player_points(self.players@),
                    m == seq_min_u16(pts.subrange(0, i as int)),
                decreases n - i,
            {
                proof {
                    assert(pts.subrange(0, i + 1).drop_last() =~= pts.subrange(0, i as int));
                    assert(pts.subrange(0, i + 1).last() == pts[i as int]);
                }
                if self.players[i].1.points < m {
                    m = self.players[i].1.points;
                }
                i = i + 1;
            }
            proof {
                assert(pts.subrange(0, n as int) =~= pts);
            }
            m
        } else if self.observers.len() > 0 {
            let ghost pts = observer_points(self.observers@);
            let n = self.observers.len();
            let mut m = self.observers[0].1.points;
            let mut i: usize = 1;
            proof {
                assert(pts.subrange(0, 1)[0] == pts[0]);
            }
            while i < n
                invariant
                    1 <= i <= n,
                    n == self.observers@.len(),
                    pts == observer_points(self.observers@),
                    m == seq_min_u16(pts.subrange(0, i as int)),
                decreases n - i,
            {
                proof {
                    assert(pts.subrange(0, i + 1).drop_last() =~= pts.subrange(0, i as int));
                    assert(pts.subrange(0, i + 1).last() == pts[i as int]);
                }
                if self.observers[i].1.points < m {
                    m = self.observers[i].1.points;
                }
                i = i + 1;
            }
            proof {
                assert(pts.subrange(0, n as int) =~= pts);
            }
            m
        } else {
            0
        }
    }

    /// Drop moderators who left the room and re-seat the creator.
    pub fn clean_moderators(&mut self)
        requires
            old(self).wf_base(),
        ensures
            final(self).wf_base(),
            *final(self) == (Room { moderators: final(self).moderators, ..*old(self) }),
            strs_unique(final(self).moderators@),
            forall|x: Seq<char>|
                #[trigger] str_in(final(self).moderators@, x) == ((str_in(old(self).moderators@, x)
                    || old(self).creator_is(x)) && old(self).is_member(x)),
    {
        let n = self.moderators.len();
        let mut kept: Vec<String> = Vec::new();
        let mut i: usize = 0;
        while i < n
            invariant
                i <= n,
                *self == *old(self),
                old(self).wf_base(),
                n == self.moderators@.len(),
                strs_unique(kept@),
                forall|x: Seq<char>|
                    #[trigger] str_in(kept@, x) ==> str_in(self.moderators@, x) && self.is_member(
                        x,
                    ),
                forall|j: int|
                    0 <= j < i && self.is_member(#[trigger] str_at(self.moderators@, j)) ==> str_in(
                        kept@,
                        str_at(self.moderators@, j),
                    ),
            decreases n - i,
        {
            if self.member_exists(self.moderators[i].as_str()) {
                let name = self.moderators[i].clone();
                insert_str(&mut kept, name.as_str());
                proof {
                    assert(str_at(self.moderators@, i as int) == name@);
                }
            }
            i = i + 1;
        }
        self.moderators = kept;
        let creator_name = match &self.creator {
            Some(c) => Some(c.clone()),
            None => None,
        };
        match creator_name {
            Some(c) => {
                if self.member_exists(c.as_str()) {
                    insert_str(&mut self.moderators, c.as_str());
                }
            },
            None => {
            },
        }
        proof {
            assert forall|x: Seq<char>| #[trigger] str_in(final(self).moderators@, x) == ((str_in(
                old(self).moderators@,
                x,
            ) || old(self).creator_is(x)) && old(self).is_member(x)) by {
                if str_in(old(self).moderators@, x) && old(self).is_member(x) {
                    let w = choose|w: int|
                        0 <= w < old(self).moderators@.len() && #[trigger] str_at(
                            old(self).moderators@,
                            w,
                        ) == x;
                }
            }
            assert forall|i2: int|
                0 <= i2 < final(self).moderators@.len() implies final(self).is_member(
                #[trigger] str_at(final(self).moderators@, i2),
            ) by {
                assert(str_in(final(self).moderators@, str_at(final(self).moderators@, i2)));
            }
        }
    }

    /// Restore the turn order to exactly the player set: entries of
    /// departed players go, newcomers are appended, the active index is
    /// clamped.  When nobody departed, the order and the index stand.
    /// Membership in a given player table, shaped for `Seq::filter`.
    pub open spec fn seated_in(players: Seq<(String, PlayerInfo)>) -> spec_fn(Seq<char>) -> bool {
        |nm: Seq<char>| has_key(players, nm)
    }

    /// Filtering drops nothing when every element passes the test.
    proof fn lemma_filter_all_pass_aux(s: Seq<Seq<char>>, pred: spec_fn(Seq<char>) -> bool)
        requires
            forall|i: int| 0 <= i < s.len() ==> pred(#[trigger] s[i]),
        ensures
            s.filter(pred) == s,
        decreases s.len(),
    {
        reveal(Seq::filter);
        if s.len() > 0 {
            assert forall|i: int| 0 <= i < s.drop_last().len() implies pred(
                #[trigger] s.drop_last()[i],
            ) by {
                assert(s.drop_last()[i] == s[i]);
            }
            Self::lemma_filter_all_pass_aux(s.drop_last(), pred);
            assert(pred(s.last()));
            assert(s.drop_last().filter(pred).push(s.last()) =~= s);
        } else {
            assert(s.filter(pred) =~= s);
        }
    }

    pub fn sync_player_order_with_players(&mut self)
        requires
            old(self).wf_tables(),
        ensures
            *final(self) == (Room {
                player_order: final(self).player_order,
                active_player: final(self).active_player,
                ..*old(self)
            }),
            strs_unique(final(self).player_order@),
            forall|i: int|
                0 <= i < final(self).player_order@.len() ==> has_key(
                    old(self).players@,
                    #[trigger] str_at(final(self).player_order@, i),
                ),
            forall|x: Seq<char>|
                #[trigger] has_key(old(self).players@, x) ==> str_in(
                    final(self).player_order@,
                    x,
                ),
            final(self).player_order@.len() == old(self).players@.len(),
            final(self).player_order@.len() == 0 ==> final(self).active_player == 0,
            final(self).player_order@.len() > 0 ==> final(self).active_player < final(self).player_order@.len(),
            ((forall|i: int|
                0 <= i < old(self).player_order@.len() ==> has_key(
                    old(self).players@,
                    #[trigger] str_at(old(self).player_order@, i),
                )) && (old(self).player_order@.len() == 0 ==> old(self).active_player == 0) && (
            old(self).player_order@.len() > 0 ==> old(self).active_player < old(self).player_order@.len())) ==> ((forall|i: int|
                0 <= i < old(self).player_order@.len() ==> final(self).player_order@[i] == old(self).player_order@[i]) && final(self).active_player == old(self).active_player
                && final(self).player_order@.len() >= old(self).player_order@.len()),
            // The names that survive stand first, in their old relative
            // order; only newly seated players follow them.
            strs_unique(old(self).player_order@) ==> crate::names::strs_of(
                final(self).player_order@,
            ).take(
                crate::names::strs_of(old(self).player_order@).filter(
                    Room::seated_in(old(self).players@),
                ).len() as int,
            ) == crate::names::strs_of(old(self).player_order@).filter(
                Room::seated_in(old(self).players@),
            ),
    {
        let n = self.player_order.len();
        let mut all_ok = true;
        let mut i: usize = 0;
        while i < n
            invariant
                i <= n,
                *self == *old(self),
                old(self).wf_tables(),
                n == self.player_order@.len(),
                all_ok == (forall|j: int|
                    0 <= j < i ==> has_key(
                        self.players@,
                        #[trigger] str_at(self.player_order@, j),
                    )),
            decreases n - i,
        {
            if !has_entry(&self.players, self.player_order[i].as_str()) {
                proof {
                    assert(!has_key(self.players@, str_at(self.player_order@, i as int)));
                }
                all_ok = false;
            }
            i = i + 1;
        }
        if !all_ok {
            let mut kept: Vec<String> = Vec::new();
            let mut j: usize = 0;
            while j < n
                invariant
                    j <= n,
                    *self == *old(self),
                    old(self).wf_tables(),
                    n == self.player_order@.len(),
                    strs_unique(kept@),
                    forall|i2: int|
                        0 <= i2 < kept@.len() ==> has_key(
                            self.players@,
                            #[trigger] str_at(kept@, i2),
                        ),
                    forall|i2: int|
                        0 <= i2 < kept@.len() ==> (exists|w: int|
                            0 <= w < j && str_at(self.player_order@, w) == #[trigger] str_at(
                                kept@,
                                i2,
                            )),
                    strs_unique(self.player_order@) ==> crate::names::strs_of(kept@)
                        == crate::names::strs_of(self.player_order@).take(j as int).filter(
                        Room::seated_in(self.players@),
                    ),
                decreases n - j,
            {
                let ghost kept0 = kept@;
                let ghost jj = j as int;
                if has_entry(&self.players, self.player_order[j].as_str()) {
                    let name = self.player_order[j].clone();
                    proof {
                        if strs_unique(self.player_order@) {
                            assert(!str_in(kept@, name@)) by {
                                if str_in(kept@, name@) {
                                    let i2 = choose|i2: int|
                                        0 <= i2 < kept@.len() && #[trigger] str_at(kept@, i2)
                                            == name@;
                                    assert(exists|w: int|
                                        0 <= w < jj && str_at(self.player_order@, w)
                                            == #[trigger] str_at(kept@, i2));
                                    let w = choose|w: int|
                                        0 <= w < jj && #[trigger] str_at(self.player_order@, w)
                                            == str_at(kept@, i2);
                                    assert(name@ == str_at(self.player_order@, jj));
                                    assert(str_at(self.player_order@, w) != str_at(
                                        self.player_order@,
                                        jj,
                                    ));
                                }
                            }
                        }
                    }
                    let ghost keptpre = kept@;
                    insert_str(&mut kept, name.as_str());
                    proof {
                        if strs_unique(self.player_order@) {
                            assert(kept@.len() == keptpre.len() + 1);
                            assert(str_at(kept@, keptpre.len() as int) == name@) by {
                                assert(str_in(kept@, name@));
                                let w2 = choose|w2: int|
                                    0 <= w2 < kept@.len() && #[trigger] str_at(kept@, w2)
                                        == name@;
                                if w2 < keptpre.len() {
                                    assert(str_at(keptpre, w2) == name@);
                                    assert(str_in(keptpre, name@));
                                }
                            }
                        }
                    }
                    proof {
                        assert forall|i2: int| 0 <= i2 < kept@.len() implies has_key(
                            self.players@,
                            #[trigger] str_at(kept@, i2),
                        ) by {
                            assert(str_in(kept@, str_at(kept@, i2)));
                        }
                    }
                }
                proof {
                    if strs_unique(self.player_order@) {
                        reveal(Seq::filter);
                        let pred = Room::seated_in(self.players@);
                        let ov = crate::names::strs_of(self.player_order@);
                        assert(ov.take(jj + 1).drop_last() =~= ov.take(jj));
                        assert(ov.take(jj + 1).last() == str_at(self.player_order@, jj));
                        if pred(str_at(self.player_order@, jj)) {
                            assert(crate::names::strs_of(kept@) =~= crate::names::strs_of(
                                kept0,
                            ).push(str_at(self.player_order@, jj)));
                            assert(ov.take(jj + 1).filter(pred) == ov.take(jj).filter(pred).push(
                                ov.take(jj + 1).last(),
                            ));
                        } else {
                            assert(kept@ == kept0);
                            assert(crate::names::strs_of(kept@) =~= crate::names::strs_of(kept0));
                            assert(ov.take(jj + 1).filter(pred) == ov.take(jj).filter(pred));
                        }
                    }
                    assert forall|i2: int| 0 <= i2 < kept@.len() implies (exists|w: int|
                        0 <= w < j + 1 && str_at(self.player_order@, w) == #[trigger] str_at(
                            kept@,
                            i2,
                        )) by {
                        if i2 < kept0.len() {
                            let w = choose|w: int|
                                0 <= w < jj && #[trigger] str_at(self.player_order@, w) == str_at(
                                    kept0,
                                    i2,
                                );
                            assert(str_at(kept@, i2) == str_at(kept0, i2));
                        } else {
                            assert(str_at(kept@, i2) == self.player_order@[jj]@);
                        }
                    }
                }
                j = j + 1;
            }
            proof {
                if strs_unique(self.player_order@) {
                    assert(crate::names::strs_of(self.player_order@).take(n as int)
                        =~= crate::names::strs_of(self.player_order@));
                    assert(crate::names::strs_of(kept@) == crate::names::strs_of(
                        self.player_order@,
                    ).filter(Room::seated_in(self.players@)));
                }
            }
            self.player_order = kept;
        }
        let ghost mid_order = self.player_order@;
        proof {
            if strs_unique(old(self).player_order@) && all_ok {
                let pred = Room::seated_in(old(self).players@);
                let ov = crate::names::strs_of(old(self).player_order@);
                assert forall|i2: int| 0 <= i2 < ov.len() implies pred(#[trigger] ov[i2]) by {
                    assert(has_key(old(self).players@, str_at(old(self).player_order@, i2)));
                }
                Room::lemma_filter_all_pass_aux(ov, pred);
                assert(crate::names::strs_of(mid_order) == ov.filter(pred));
            }
        }
        let m = self.players.len();
        let mut j: usize = 0;
        while j < m
            invariant
                j <= m,
                m == self.players@.len(),
                *self == (Room {
                    player_order: self.player_order,
                    active_player: self.active_player,
                    ..*old(self)
                }),
                old(self).wf_tables(),
                self.active_player == old(self).active_player,
                strs_unique(self.player_order@),
                self.player_order@.len() >= mid_order.len(),
                forall|i2: int| 0 <= i2 < mid_order.len() ==> self.player_order@[i2] == mid_order[i2],
                forall|i2: int|
                    0 <= i2 < self.player_order@.len() ==> has_key(
                        self.players@,
                        #[trigger] str_at(self.player_order@, i2),
                    ),
                forall|j2: int|
                    0 <= j2 < j ==> str_in(
                        self.player_order@,
                        #[trigger] key_at(self.players@, j2),
                    ),
            decreases m - j,
        {
            let pname = self.players[j].0.clone();
            let ghost before = self.player_order@;
            insert_str(&mut self.player_order, pname.as_str());
            proof {
                assert(key_at(self.players@, j as int) == pname@);
                assert(has_key(self.players@, pname@));
                assert forall|i2: int| 0 <= i2 < self.player_order@.len() implies has_key(
                    self.players@,
                    #[trigger] str_at(self.player_order@, i2),
                ) by {
                    assert(str_in(self.player_order@, str_at(self.player_order@, i2)));
                    if !str_in(before, str_at(self.player_order@, i2)) {
                        assert(str_at(self.player_order@, i2) == pname@);
                    } else {
                        let w = choose|w: int|
                            0 <= w < before.len() && #[trigger] str_at(before, w) == str_at(
                                self.player_order@,
                                i2,
                            );
                    }
                }
                assert forall|j2: int| 0 <= j2 <= j implies str_in(
                    self.player_order@,
                    #[trigger] key_at(self.players@, j2),
                ) by {
                }
            }
            j = j + 1;
        }
        proof {
            assert forall|x: Seq<char>| #[trigger] str_in(self.player_order@, x) == has_key(
                self.players@,
                x,
            ) by {
                if str_in(self.player_order@, x) {
                    let w = choose|w: int|
                        0 <= w < self.player_order@.len() && #[trigger] str_at(
                            self.player_order@,
                            w,
                        ) == x;
                }
                if has_key(self.players@, x) {
                    let w = choose|w: int|
                        0 <= w < self.players@.len() && #[trigger] key_at(self.players@, w) == x;
                }
            }
            lemma_list_table_same_len(self.player_order@, self.players@);
        }
        if self.player_order.len() == 0 {
            self.active_player = 0;
        } else if self.active_player >= self.player_order.len() {
            self.active_player = 0;
        }
        proof {
            if strs_unique(old(self).player_order@) {
                let survivors = crate::names::strs_of(old(self).player_order@).filter(
                    Room::seated_in(old(self).players@),
                );
                assert(crate::names::strs_of(mid_order) == survivors);
                assert(crate::names::strs_of(self.player_order@).take(survivors.len() as int)
                    =~= survivors);
            }
        }
    }

    /// When no moderator has been connected for five minutes, promote a
    /// random connected member.  Returns whether a promotion happened.
    pub fn maybe_promote_moderator(&mut self, now_s: u64) -> (r: bool)
        requires
            old(self).wf(),
        ensures
            final(self).wf(),
            *final(self) == (Room {
                moderators: final(self).moderators,
                no_connected_moderator_since_s: final(self).no_connected_moderator_since_s,
                ..*old(self)
            }),
            r ==> final(self).has_connected_moderator_spec(),
            ((old(self).no_connected_moderator_since_s matches Some(t) && now_s >= t
                + MODERATOR_ABSENCE_PROMOTION_DELAY_S) && (exists|x: Seq<char>|
                old(self).is_member(x) && old(self).member_connected(x))) ==> final(self).has_connected_moderator_spec(),
            // Without a promotion, the set is merely cleaned of the departed.
            !r ==> forall|x: Seq<char>|
                #[trigger] str_in(final(self).moderators@, x) == ((str_in(old(self).moderators@, x)
                    || old(self).creator_is(x)) && old(self).is_member(x)),
            old(self).has_connected_moderator_spec() ==> !r,
            // A member never loses moderator status here.
            forall|x: Seq<char>|
                str_in(old(self).moderators@, x) && old(self).is_member(x) ==> str_in(
                    final(self).moderators@,
                    x,
                ),
            // A promotion adds exactly one connected member to the set.
            r ==> (exists|x: Seq<char>|
                {
                    &&& !str_in(old(self).moderators@, x)
                    &&& #[trigger] str_in(final(self).moderators@, x)
                    &&& final(self).member_connected(x)
                    &&& forall|y: Seq<char>|
                        y != x ==> #[trigger] str_in(final(self).moderators@, y) == ((str_in(
                            old(self).moderators@,
                            y,
                        ) || old(self).creator_is(y)) && old(self).is_member(y))
                }),
            // The absence timer is cleared by any connected moderator or a
            // promotion, set when absence is first seen, and kept ticking
            // while it lasts.
            r ==> final(self).no_connected_moderator_since_s is None,
            (!r && final(self).has_connected_moderator_spec()) ==> final(self).no_connected_moderator_since_s is None,
            (!r && !final(self).has_connected_moderator_spec()) ==> (
            final(self).no_connected_moderator_since_s matches Some(t2) && (match old(self).no_connected_moderator_since_s {
                Some(t) => t2 == t,
                None => t2 == now_s,
            })),
    {
        self.clean_moderators();
        if self.has_connected_moderator() {
            self.no_connected_moderator_since_s = None;
            proof {
                lemma_member_connected_same(*old(self), *self);
            }
            return false;
        }
        let since: u64 = match self.no_connected_moderator_since_s {
            Some(t) => t,
            None => {
                self.no_connected_moderator_since_s = Some(now_s);
                now_s
            },
        };
        if now_s.saturating_sub(since) < MODERATOR_ABSENCE_PROMOTION_DELAY_S {
            proof {
                lemma_member_connected_same(*old(self), *self);
            }
            return false;
        }
        let ghost pre = *self;
        let mut cands: Vec<String> = Vec::new();
        let np = self.players.len();
        let mut i: usize = 0;
        while i < np
            invariant
                i <= np,
                np == self.players@.len(),
                *self == pre,
                unique_keys(self.players@),
                unique_keys(self.observers@),
                forall|k: int|
                    0 <= k < cands@.len() ==> self.member_connected(
                        #[trigger] str_at(cands@, k),
                    ) && !str_in(self.moderators@, str_at(cands@, k)),
                forall|j2: int|
                    0 <= j2 < i && (#[trigger] self.players@[j2]).1.connected && !str_in(
                        self.moderators@,
                        key_at(self.players@, j2),
                    ) ==> str_in(cands@, key_at(self.players@, j2)),
            decreases np - i,
        {
            if self.players[i].1.connected && !contains_str(
                &self.moderators,
                self.players[i].0.as_str(),
            ) {
                let name = self.players[i].0.clone();
                let ghost prev = cands@;
                proof {
                    assert(key_at(self.players@, i as int) == name@);
                    lemma_index_of_key(self.players@, name@, i as int);
                    lemma_str_in_push(cands@, name);
                }
                cands.push(name);
                proof {
                    assert forall|k: int| 0 <= k < cands@.len() implies self.member_connected(
                        #[trigger] str_at(cands@, k),
                    ) && !str_in(self.moderators@, str_at(cands@, k)) by {
                        if k < prev.len() {
                            assert(str_at(cands@, k) == str_at(prev, k));
                        } else {
                            assert(str_at(cands@, k) == name@);
                        }
                    }
                }
            }
            i = i + 1;
        }
        let no = self.observers.len();
        let mut i2: usize = 0;
        while i2 < no
            invariant
                i2 <= no,
                no == self.observers@.len(),
                np == self.players@.len(),
                *self == pre,
                unique_keys(self.players@),
                unique_keys(self.observers@),
                forall|k: int|
                    0 <= k < cands@.len() ==> self.member_connected(
                        #[trigger] str_at(cands@, k),
                    ) && !str_in(self.moderators@, str_at(cands@, k)),
                forall|j2: int|
                    0 <= j2 < np && (#[trigger] self.players@[j2]).1.connected && !str_in(
                        self.moderators@,
                        key_at(self.players@, j2),
                    ) ==> str_in(cands@, key_at(self.players@, j2)),
                forall|j2: int|
                    0 <= j2 < i2 && (#[trigger] self.observers@[j2]).1.connected && !str_in(
                        self.moderators@,
                        key_at(self.observers@, j2),
                    ) && !has_key(self.players@, key_at(self.observers@, j2)) ==> str_in(
                        cands@,
                        key_at(self.observers@, j2),
                    ),
            decreases no - i2,
        {
            if self.observers[i2].1.connected && !contains_str(
                &self.moderators,
                self.observers[i2].0.as_str(),
            ) && !has_entry(&self.players, self.observers[i2].0.as_str()) {
                let name = self.observers[i2].0.clone();
                let ghost prev = cands@;
                proof {
                    assert(key_at(self.observers@, i2 as int) == name@);
                    lemma_index_of_key(self.observers@, name@, i2 as int);
                    lemma_str_in_push(cands@, name);
                }
                cands.push(name);
                proof {
                    assert forall|k: int| 0 <= k < cands@.len() implies self.member_connected(
                        #[trigger] str_at(cands@, k),
                    ) && !str_in(self.moderators@, str_at(cands@, k)) by {
                        if k < prev.len() {
                            assert(str_at(cands@, k) == str_at(prev, k));
                        } else {
                            assert(str_at(cands@, k) == name@);
                        }
                    }
                }
            } else {
                proof {
                    lemma_index_of_key(self.observers@, key_at(self.observers@, i2 as int), i2 as int);
                }
            }
            i2 = i2 + 1;
        }
        if cands.len() == 0 {
            proof {
                lemma_member_connected_same(*old(self), *self);
                if exists|x: Seq<char>| old(self).is_member(x) && old(self).member_connected(x) {
                    let x = choose|x: Seq<char>|
                        old(self).is_member(x) && old(self).member_connected(x);
                    assert(self.is_member(x) && self.member_connected(x));
                    if str_in(self.moderators@, x) {
                        let w = choose|w: int|
                            0 <= w < self.moderators@.len() && #[trigger] str_at(
                                self.moderators@,
                                w,
                            ) == x;
                        assert(self.has_connected_moderator_spec());
                    } else {
                        if self.is_player(x) {
                            lemma_key_index_valid(self.players@, x);
                            let w = crate::tbl::index_of_key(self.players@, x);
                            lemma_index_of_key(self.players@, x, w);
                            assert(str_in(cands@, key_at(self.players@, w)));
                        } else {
                            lemma_key_index_valid(self.observers@, x);
                            let w = crate::tbl::index_of_key(self.observers@, x);
                            lemma_index_of_key(self.observers@, x, w);
                            assert(str_in(cands@, key_at(self.observers@, w)));
                        }
                        assert(false);
                    }
                }
            }
            return false;
        }
        let pick = crate::sys::random_below(cands.len());
        let promoted = cands[pick].clone();
        proof {
            assert(str_at(cands@, pick as int) == promoted@);
        }
        insert_str(&mut self.moderators, promoted.as_str());
        self.no_connected_moderator_since_s = None;
        proof {
            lemma_member_connected_same(*old(self), *self);
            let w = choose|w: int|
                0 <= w < self.moderators@.len() && #[trigger] str_at(self.moderators@, w)
                    == promoted@;
            assert(self.member_connected(promoted@));
            assert(self.has_connected_moderator_spec());
            assert forall|i3: int|
                0 <= i3 < self.moderators@.len() implies self.is_member(
                #[trigger] str_at(self.moderators@, i3),
            ) by {
                assert(str_in(self.moderators@, str_at(self.moderators@, i3)));
            }
        }
        true
    }
}

/// Connectivity of members depends only on the player and observer
/// tables, which these maintenance steps leave alone.
proof fn lemma_member_connected_same(a: Room, b: Room)
    requires
        a.players == b.players,
        a.observers == b.observers,
    ensures
        forall|x: Seq<char>| #[trigger] a.member_connected(x) == b.member_connected(x),
        forall|x: Seq<char>| #[trigger] a.is_member(x) == b.is_member(x),
{
}

} // verus!
