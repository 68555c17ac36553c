//! The library's standing laws, stated as proof functions over the room
//! invariant and the scoring specification.  Each holds of every
//! reachable state because every transition requires and re-establishes
//! `wf()`.

use vstd::prelude::*;
use crate::msgs::RoomStage;
use crate::room::Room;
use crate::tbl::{
    has_key, key_at, unique_keys, value_of, index_of_key, lemma_index_of_key,
    lemma_key_index_valid, lemma_remove_entry_seq, lemma_key_subset_len,
    lemma_key_subset_len_except, lemma_list_table_same_len,
};

verus! {

/// Card conservation: in every well-formed room, the draw pile, the
/// discard pile and the hands together hold exactly the base deck, whose
/// cards are pairwise distinct.  A submitted card is never tracked
/// separately: it stays in its owner's hand until voting starts, then
/// lies on the discard pile.
pub proof fn lemma_card_conservation(r: Room)
    requires
        r.wf(),
    ensures
        r.placed_cards() == r.base_bag(),
        forall|c: Seq<char>| #[trigger] r.placed_cards().count(c) <= 1,
{
    assert forall|c: Seq<char>| #[trigger] r.placed_cards().count(c) <= 1 by {
        crate::cards::lemma_unique_card_bag(r.base_deck@, c);
    }
}

/// No self-vote: a player who submitted a card never has a vote recorded
/// for that same card.
pub proof fn lemma_no_self_vote(r: Room, p: Seq<char>)
    requires
        r.wf(),
        has_key(r.player_to_vote@, p),
        has_key(r.player_to_current_card@, p),
    ensures
        value_of(r.player_to_vote@, p)@ != value_of(r.player_to_current_card@, p)@,
{
    lemma_key_index_valid(r.player_to_vote@, p);
    let i = index_of_key(r.player_to_vote@, p);
    lemma_index_of_key(r.player_to_vote@, p, i);
}

/// The storyteller can never be among the voters while votes count.
pub proof fn lemma_active_never_votes(r: Room)
    requires
        r.wf(),
        r.stage == RoomStage::Voting || r.stage == RoomStage::Results,
    ensures
        !has_key(r.player_to_vote@, r.active_name()),
{
}

/// The hand bound: nobody ever holds more than six cards, and each hand
/// belongs to a current player.  (That every hand holds exactly six at
/// the start of a round is an `ensures` of `init_round`.)
pub proof fn lemma_hand_bound(r: Room, p: Seq<char>)
    requires
        r.wf(),
        has_key(r.player_hand@, p),
    ensures
        value_of(r.player_hand@, p)@.len() <= crate::room::HAND_SIZE,
        r.is_player(p),
{
    lemma_key_index_valid(r.player_hand@, p);
    let i = index_of_key(r.player_hand@, p);
    lemma_index_of_key(r.player_hand@, p, i);
}

/// Generation monotonicity: every stored connection generation lies at
/// or below the counter, so the generation minted for the next session
/// (the successor of the counter) strictly exceeds every one stored.
/// Because `handle_client_msg` ignores any message whose generation is
/// not the stored one, at most one session per name can ever mutate the
/// room.
pub proof fn lemma_generation_monotone(r: Room, x: Seq<char>)
    requires
        r.wf(),
        has_key(r.connection_generation@, x),
        r.next_generation < u64::MAX,
    ensures
        value_of(r.connection_generation@, x) < r.next_generation + 1,
{
    lemma_key_index_valid(r.connection_generation@, x);
    let i = index_of_key(r.connection_generation@, x);
    lemma_index_of_key(r.connection_generation@, x, i);
}

/// The broadcast snapshot is self-sufficient: two rooms that produce the
/// same snapshot agree on everything a client renders, so applying only
/// the latest snapshot gives the same picture regardless of how many
/// intermediate broadcasts were missed.
pub proof fn lemma_snapshot_determines_state(r1: Room, r2: Room, m: crate::msgs::RoomStateMsg)
    requires
        r1.room_state_matches(m),
        r2.room_state_matches(m),
    ensures
        r1.players@ == r2.players@,
        r1.observers@ == r2.observers@,
        r1.creator == r2.creator,
        r1.moderators@ == r2.moderators@,
        r1.stage == r2.stage,
        r1.player_order@ == r2.player_order@,
        r1.round == r2.round,
        r1.deck@.len() == r2.deck@.len(),
        r1.deck_refill_count == r2.deck_refill_count,
        r1.win_condition == r2.win_condition,
        r1.allow_new_players_midgame == r2.allow_new_players_midgame,
        r1.paused_reason == r2.paused_reason,
{
}

/// The sum of the round's score changes over the voters.
pub open spec fn sum_vote_points(r: Room, vs: Seq<(String, String)>) -> int
    decreases vs.len(),
{
    if vs.len() == 0 {
        0
    } else {
        sum_vote_points(r, vs.drop_last()) + r.spec_point_change(vs.last().0@)
    }
}

/// The sum of the bluff bonuses over the voters: each voter collects one
/// point per vote their own submission attracted.  Voters who did not
/// submit collect nothing, and by the results stage every non-active
/// submitter is among the voters, so this is exactly the bluff total.
pub open spec fn sum_bluffs(r: Room, vs: Seq<(String, String)>) -> int
    decreases vs.len(),
{
    if vs.len() == 0 {
        0
    } else {
        sum_bluffs(r, vs.drop_last()) + r.bluff_bonus(vs.last().0@)
    }
}

/// The total score handed out in a round: the storyteller's change plus
/// every voter's change.
pub open spec fn total_round_points(r: Room) -> int {
    r.spec_point_change(r.active_name()) + sum_vote_points(r, r.player_to_vote@)
}

proof fn lemma_sum_split(r: Room, vs: Seq<(String, String)>)
    requires
        forall|i: int| 0 <= i < vs.len() ==> (#[trigger] vs[i]).0@ != r.active_name(),
        unique_keys(vs),
        vs == r.player_to_vote@,
    ensures
        r.nobody_voted_active() ==> sum_vote_points(r, vs) == 2 * vs.len() + sum_bluffs(r, vs),
        r.all_voted_active() ==> sum_vote_points(r, vs) == 2 * vs.len(),
        r.vote_split() ==> sum_vote_points(r, vs) == 3 * count_active_votes(r, vs) + sum_bluffs(
            r,
            vs,
        ),
{
    lemma_sum_split_rec(r, vs, vs.len() as int);
    assert(vs.subrange(0, vs.len() as int) =~= vs);
}

/// How many of the given votes name the storyteller's card, counted over
/// entries with the vote value read through the full table.
spec fn count_active_votes(r: Room, vs: Seq<(String, String)>) -> int
    decreases vs.len(),
{
    if vs.len() == 0 {
        0
    } else {
        count_active_votes(r, vs.drop_last()) + (if value_of(r.player_to_vote@, vs.last().0@)@
            == r.active_card() {
            1int
        } else {
            0int
        })
    }
}

proof fn lemma_sum_split_rec(r: Room, vs: Seq<(String, String)>, n: int)
    requires
        0 <= n <= vs.len(),
        forall|i: int| 0 <= i < vs.len() ==> (#[trigger] vs[i]).0@ != r.active_name(),
        unique_keys(vs),
        vs == r.player_to_vote@,
    ensures
        r.nobody_voted_active() ==> sum_vote_points(r, vs.subrange(0, n)) == 2 * n + sum_bluffs(
            r,
            vs.subrange(0, n),
        ),
        r.all_voted_active() ==> sum_vote_points(r, vs.subrange(0, n)) == 2 * n,
        r.vote_split() ==> sum_vote_points(r, vs.subrange(0, n)) == 3 * count_active_votes(
            r,
            vs.subrange(0, n),
        ) + sum_bluffs(r, vs.subrange(0, n)),
    decreases n,
{
    if n == 0 {
        assert(vs.subrange(0, 0) =~= Seq::<(String, String)>::empty());
    } else {
        lemma_sum_split_rec(r, vs, n - 1);
        let pre = vs.subrange(0, n);
        assert(pre.drop_last() =~= vs.subrange(0, n - 1));
        assert(pre.last() == vs[n - 1]);
        let p = vs[n - 1].0@;
        assert(key_at(vs, n - 1) == p);
        lemma_index_of_key(vs, p, n - 1);
        assert(value_of(r.player_to_vote@, p) == vs[n - 1].1);
        assert(p != r.active_name());
    }
}

/// The scoring sum law.  With `V` the voters (every non-active player by
/// the results stage) and `B` the bluff total: when nobody found the
/// storyteller's card the round hands out `2·|V| + B`; when everybody
/// found it, `2·|V|`; otherwise `3·(votes for the storyteller's card +
/// 1) + B`.  By the results stage `|V|` equals the turn order's length
/// minus one.
pub proof fn lemma_scoring_sum(r: Room)
    requires
        r.wf(),
        r.stage == RoomStage::Results,
    ensures
        r.nobody_voted_active() ==> total_round_points(r) == 2 * r.player_to_vote@.len()
            + sum_bluffs(r, r.player_to_vote@),
        r.all_voted_active() ==> total_round_points(r) == 2 * r.player_to_vote@.len(),
        r.vote_split() ==> total_round_points(r) == 3 * (r.votes_for_active() + 1) + sum_bluffs(
            r,
            r.player_to_vote@,
        ),
        r.player_to_vote@.len() == r.player_order@.len() - 1,
{
    let vs = r.player_to_vote@;
    assert forall|i: int| 0 <= i < vs.len() implies (#[trigger] vs[i]).0@ != r.active_name() by {
        assert(key_at(vs, i) == vs[i].0@);
        lemma_index_of_key(vs, vs[i].0@, i);
        assert(has_key(vs, vs[i].0@));
    }
    lemma_sum_split(r, vs);
    lemma_count_active_votes_eq(r, vs, vs.len() as int);
    assert(vs.subrange(0, vs.len() as int) =~= vs);
    // |votes| == |players| - 1 == |player_order| - 1.
    lemma_key_index_valid(r.players@, r.active_name());
    let ai = index_of_key(r.players@, r.active_name());
    lemma_remove_entry_seq(r.players@, ai);
    assert forall|x: Seq<char>| #[trigger] has_key(vs, x) implies has_key(
        r.players@.remove(ai),
        x,
    ) by {
        assert(has_key(r.players@, x));
        assert(x != r.active_name());
    }
    lemma_key_subset_len(vs, r.players@.remove(ai));
    assert forall|x: Seq<char>| #[trigger] has_key(r.players@, x) && x != r.active_name() implies
        has_key(vs, x) by {
    }
    lemma_key_subset_len_except(r.players@, vs, r.active_name());
    lemma_list_table_same_len(r.player_order@, r.players@);
}

/// The per-entry vote counting agrees with counting through the table.
proof fn lemma_count_active_votes_eq(r: Room, vs: Seq<(String, String)>, n: int)
    requires
        0 <= n <= vs.len(),
        unique_keys(vs),
        vs == r.player_to_vote@,
    ensures
        count_active_votes(r, vs.subrange(0, n)) == crate::engine::count_votes_for(
            vs.subrange(0, n),
            r.active_card(),
        ),
    decreases n,
{
    if n == 0 {
        assert(vs.subrange(0, 0) =~= Seq::<(String, String)>::empty());
    } else {
        lemma_count_active_votes_eq(r, vs, n - 1);
        let pre = vs.subrange(0, n);
        assert(pre.drop_last() =~= vs.subrange(0, n - 1));
        assert(pre.last() == vs[n - 1]);
        assert(key_at(vs, n - 1) == vs[n - 1].0@);
        lemma_index_of_key(vs, vs[n - 1].0@, n - 1);
        assert(value_of(r.player_to_vote@, vs[n - 1].0@) == vs[n - 1].1);
    }
}

} // verus!
