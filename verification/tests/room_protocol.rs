use talespin::msgs::{ClientMsg, ObserverInfo, Outbound, PlayerInfo, RoomStage, ServerMsg,
    WinCondition};
use talespin::room::Room;

fn test_room() -> Room {
    let deck: Vec<String> = (0..512).map(|i| format!("card-{}", i)).collect();
    Room::new(
        "test",
        deck,
        WinCondition::Points { target_points: 10 },
        Some("host".to_string()),
        64,
    )
}

fn add_player(room: &mut Room, name: &str, points: u16) {
    room.players.push((
        name.to_string(),
        PlayerInfo { connected: true, points, ready: false },
    ));
    room.player_hand.push((
        name.to_string(),
        vec![
            format!("{}-1", name),
            format!("{}-2", name),
            format!("{}-3", name),
            format!("{}-4", name),
            format!("{}-5", name),
            format!("{}-6", name),
        ],
    ));
    if !room.player_order.iter().any(|p| p == name) {
        room.player_order.push(name.to_string());
    }
}

fn setup_connected_member(room: &mut Room, name: &str, token: &str, generation: u64) {
    room.name_tokens.push((name.to_string(), token.to_string()));
    room.connection_generation.push((name.to_string(), generation));
    if room.next_generation < generation {
        room.next_generation = generation;
    }
}

fn player_info(room: &Room, name: &str) -> Option<PlayerInfo> {
    room.players.iter().find(|e| e.0 == name).map(|e| e.1)
}

#[test]
fn kicking_non_voter_during_voting_transitions_to_results() {
    let mut room = test_room();

    add_player(&mut room, "a", 0);
    add_player(&mut room, "b", 0);
    add_player(&mut room, "c", 0);
    add_player(&mut room, "d", 0);
    room.player_order = vec!["a".into(), "b".into(), "c".into(), "d".into()];
    room.active_player = 0;
    room.round = 2;
    room.stage = RoomStage::Voting;
    room.current_description = "clue".to_string();

    // At the voting stage the submissions already sit on the discard pile.
    for card in ["ca", "cb", "cc", "cd"] {
        room.discard_pile.push(card.to_string());
    }
    room.player_to_current_card.push(("a".into(), "ca".into()));
    room.player_to_current_card.push(("b".into(), "cb".into()));
    room.player_to_current_card.push(("c".into(), "cc".into()));
    room.player_to_current_card.push(("d".into(), "cd".into()));
    room.player_to_vote.push(("b".into(), "ca".into()));
    room.player_to_vote.push(("c".into(), "ca".into()));
    // d intentionally has not voted yet

    let mut out: Vec<Outbound> = Vec::new();
    let removed = room.remove_player("d", None, &mut out);
    assert!(removed, "expected player d to be removed");

    room.after_member_removed_or_observered(false, &mut out)
        .expect("the hook must succeed");
    assert!(
        matches!(room.stage, RoomStage::Results),
        "expected to transition to Results after removing non-voter in Voting"
    );
}

#[test]
fn dropping_below_three_players_enters_pause_instead_of_ending() {
    let mut room = test_room();

    add_player(&mut room, "a", 0);
    add_player(&mut room, "b", 0);
    add_player(&mut room, "c", 0);
    room.player_order = vec!["a".into(), "b".into(), "c".into()];
    room.active_player = 0;
    room.round = 3;
    room.stage = RoomStage::PlayersChoose;
    room.current_description = "clue".to_string();
    // The storyteller has submitted; the submission stays in the hand.
    room.player_to_current_card.push(("a".into(), "a-1".into()));

    let mut out: Vec<Outbound> = Vec::new();
    let removed = room.remove_player("c", None, &mut out);
    assert!(removed, "expected player c to be removed");
    room.after_member_removed_or_observered(false, &mut out)
        .expect("the hook must succeed");

    assert!(
        matches!(room.stage, RoomStage::Paused),
        "expected stage to be Paused when active players drop below 3"
    );
    assert!(room.paused_reason.is_some(), "expected a pause reason to be set");
    assert_eq!(room.round, 3, "pausing must not touch the round number");
}

#[test]
fn resume_game_requires_three_non_observer_players() {
    let mut room = test_room();

    add_player(&mut room, "host", 2);
    add_player(&mut room, "p2", 3);
    room.moderators.push("host".to_string());
    room.stage = RoomStage::Paused;
    room.paused_reason = Some("Need at least 3 non-observer players".to_string());
    setup_connected_member(&mut room, "host", "t-host", 7);

    let mut out: Vec<Outbound> = Vec::new();
    room.handle_client_msg("host", 7, ClientMsg::ResumeGame {}, &mut out)
        .expect("resume handling must not fail");
    assert!(
        matches!(room.stage, RoomStage::Paused),
        "resume should be rejected while fewer than 3 non-observer players exist"
    );

    add_player(&mut room, "p3", 4);

    room.handle_client_msg("host", 7, ClientMsg::ResumeGame {}, &mut out)
        .expect("resume handling must not fail");
    assert!(
        matches!(room.stage, RoomStage::ActiveChooses),
        "resume should start a round once at least 3 non-observer players exist"
    );
}

#[test]
fn observer_promotion_uses_floor_score_only() {
    let mut room = test_room();

    add_player(&mut room, "p1", 6);
    add_player(&mut room, "p2", 10);

    room.observers.push((
        "low".to_string(),
        ObserverInfo {
            connected: true,
            points: 2,
            join_requested: true,
            auto_join_on_next_round: false,
        },
    ));
    room.observers.push((
        "high".to_string(),
        ObserverInfo {
            connected: true,
            points: 14,
            join_requested: true,
            auto_join_on_next_round: false,
        },
    ));

    let promoted = room.promote_requested_observers();
    assert_eq!(promoted, 2, "expected both observers to be promoted");
    assert_eq!(
        player_info(&room, "low").map(|p| p.points),
        Some(6),
        "low observer should be floored to minimum player score"
    );
    assert_eq!(
        player_info(&room, "high").map(|p| p.points),
        Some(14),
        "higher observer score should be preserved"
    );
}

#[test]
fn token_validation_enforces_name_ownership() {
    let mut room = test_room();
    room.name_tokens
        .push(("alice".to_string(), "token-a".to_string()));

    assert!(
        room.has_valid_token_for_name("alice", "token-a"),
        "same token must be accepted"
    );
    assert!(
        !room.has_valid_token_for_name("alice", "token-b"),
        "different token for same name must be rejected"
    );
    assert!(
        room.has_valid_token_for_name("bob", "token-any"),
        "new name should accept any token"
    );
}

fn point_change_of(pc: &Vec<(String, u16)>, name: &str) -> Option<u16> {
    pc.iter().find(|e| e.0 == name).map(|e| e.1)
}

#[test]
fn scoring_mixed_branch_matches_expected_changes() {
    let mut room = test_room();
    add_player(&mut room, "a", 0);
    add_player(&mut room, "b", 0);
    add_player(&mut room, "c", 0);
    add_player(&mut room, "d", 0);
    room.player_order = vec!["a".into(), "b".into(), "c".into(), "d".into()];
    room.active_player = 0;
    room.stage = RoomStage::Results;
    room.player_to_current_card.push(("a".into(), "ca".into()));
    room.player_to_current_card.push(("b".into(), "cb".into()));
    room.player_to_current_card.push(("c".into(), "cc".into()));
    room.player_to_current_card.push(("d".into(), "cd".into()));
    room.player_to_vote.push(("b".into(), "ca".into()));
    room.player_to_vote.push(("c".into(), "cc".into()));
    room.player_to_vote.push(("d".into(), "ca".into()));

    let pc = room.compute_results();
    assert_eq!(point_change_of(&pc, "a"), Some(3));
    assert_eq!(point_change_of(&pc, "b"), Some(3));
    assert_eq!(point_change_of(&pc, "c"), Some(1));
    assert_eq!(point_change_of(&pc, "d"), Some(3));
}

#[test]
fn scoring_nobody_found_the_card_pays_bluffs() {
    let mut room = test_room();
    add_player(&mut room, "a", 0);
    add_player(&mut room, "b", 0);
    add_player(&mut room, "c", 0);
    add_player(&mut room, "d", 0);
    room.player_order = vec!["a".into(), "b".into(), "c".into(), "d".into()];
    room.active_player = 0;
    room.stage = RoomStage::Results;
    room.player_to_current_card.push(("a".into(), "ca".into()));
    room.player_to_current_card.push(("b".into(), "cb".into()));
    room.player_to_current_card.push(("c".into(), "cc".into()));
    room.player_to_current_card.push(("d".into(), "cd".into()));
    room.player_to_vote.push(("b".into(), "cc".into()));
    room.player_to_vote.push(("c".into(), "cb".into()));
    room.player_to_vote.push(("d".into(), "cb".into()));

    let pc = room.compute_results();
    assert_eq!(point_change_of(&pc, "a"), Some(0));
    assert_eq!(point_change_of(&pc, "b"), Some(4)); // 2 + two votes on cb
    assert_eq!(point_change_of(&pc, "c"), Some(3)); // 2 + one vote on cc
    assert_eq!(point_change_of(&pc, "d"), Some(2)); // 2 + none on cd
}

#[test]
fn scoring_everyone_found_the_card_pays_two_each() {
    let mut room = test_room();
    add_player(&mut room, "a", 0);
    add_player(&mut room, "b", 0);
    add_player(&mut room, "c", 0);
    add_player(&mut room, "d", 0);
    room.player_order = vec!["a".into(), "b".into(), "c".into(), "d".into()];
    room.active_player = 0;
    room.stage = RoomStage::Results;
    room.player_to_current_card.push(("a".into(), "ca".into()));
    room.player_to_current_card.push(("b".into(), "cb".into()));
    room.player_to_current_card.push(("c".into(), "cc".into()));
    room.player_to_current_card.push(("d".into(), "cd".into()));
    room.player_to_vote.push(("b".into(), "ca".into()));
    room.player_to_vote.push(("c".into(), "ca".into()));
    room.player_to_vote.push(("d".into(), "ca".into()));

    let pc = room.compute_results();
    assert_eq!(point_change_of(&pc, "a"), Some(0));
    assert_eq!(point_change_of(&pc, "b"), Some(2));
    assert_eq!(point_change_of(&pc, "c"), Some(2));
    assert_eq!(point_change_of(&pc, "d"), Some(2));
}

#[test]
fn join_reconnect_and_generations() {
    let mut room = test_room();
    let mut out: Vec<Outbound> = Vec::new();

    let g1 = room.attempt_join("alice", "t1", &mut out);
    assert_eq!(g1, Some(1), "first join mints generation 1");

    let rejected = room.attempt_join("alice", "t2", &mut out);
    assert_eq!(rejected, None, "a different token for a taken name is rejected");
    assert!(
        out.iter().any(|o| matches!(
            o,
            Outbound::ToJoiner(ServerMsg::ErrorMsg(m)) if m == "Name already taken"
        )),
        "the rejection names the reason"
    );

    let g2 = room.attempt_join("alice", "t1", &mut out);
    assert_eq!(g2, Some(2), "a reconnect mints a strictly larger generation");
    assert!(
        out.iter().any(|o| matches!(
            o,
            Outbound::Direct { name, msg: ServerMsg::LeftRoom { reason } }
                if name == "alice" && reason == "You signed in from another session"
        )),
        "the old session is told it was replaced"
    );

    // A message under the stale generation changes nothing.
    let before_len = room.players.len();
    room.handle_client_msg("alice", 1, ClientMsg::LeaveRoom {}, &mut out)
        .expect("stale messages are dropped silently");
    assert_eq!(room.players.len(), before_len, "the stale session cannot mutate");

    room.handle_client_msg("alice", 2, ClientMsg::LeaveRoom {}, &mut out)
        .expect("the live session may leave");
    assert!(room.players.is_empty(), "the live session's leave removes the player");
}

#[test]
fn empty_names_blank_tokens_and_full_rooms_are_rejected() {
    let deck: Vec<String> = (0..64).map(|i| format!("card-{}", i)).collect();
    let mut room = Room::new("tiny", deck, WinCondition::CardsFinish, None, 2);
    let mut out: Vec<Outbound> = Vec::new();

    assert_eq!(room.attempt_join("", "t", &mut out), None);
    assert_eq!(room.attempt_join("bob", "   ", &mut out), None);
    let long_name = "x".repeat(31);
    assert_eq!(room.attempt_join(&long_name, "t", &mut out), None);

    assert!(room.attempt_join("ann", "t1", &mut out).is_some());
    assert!(room.attempt_join("ben", "t2", &mut out).is_some());
    assert_eq!(
        room.attempt_join("cal", "t3", &mut out),
        None,
        "the room is full at two members"
    );
}

#[test]
fn full_round_reaches_results_through_the_protocol() {
    let deck: Vec<String> = (0..64).map(|i| format!("card-{}", i)).collect();
    let mut room = Room::new("flow", deck, WinCondition::Points { target_points: 30 }, None, 16);
    let mut out: Vec<Outbound> = Vec::new();

    let ga = room.attempt_join("ann", "ta", &mut out).expect("ann joins");
    let gb = room.attempt_join("ben", "tb", &mut out).expect("ben joins");
    let gc = room.attempt_join("cal", "tc", &mut out).expect("cal joins");

    room.handle_client_msg("ann", ga, ClientMsg::StartGame {}, &mut out)
        .expect("the creator starts the game");
    assert!(matches!(room.stage, RoomStage::ActiveChooses));
    assert_eq!(room.round, 1);
    for (_, hand) in room.player_hand.iter() {
        assert_eq!(hand.len(), 6, "every hand starts the round full");
    }

    let active = room.player_order[room.active_player].clone();
    let gen_of = |n: &str| if n == "ann" { ga } else if n == "ben" { gb } else { gc };
    let hand_of = |room: &Room, n: &str| {
        room.player_hand
            .iter()
            .find(|e| e.0 == n)
            .map(|e| e.1.clone())
            .expect("hand exists")
    };

    let active_card = hand_of(&room, &active)[0].clone();
    room.handle_client_msg(
        &active,
        gen_of(&active),
        ClientMsg::ActivePlayerChooseCard {
            card: active_card.clone(),
            description: "clue".to_string(),
        },
        &mut out,
    )
    .expect("the storyteller chooses");
    assert!(matches!(room.stage, RoomStage::PlayersChoose));

    let others: Vec<String> = room
        .player_order
        .iter()
        .filter(|n| **n != active)
        .cloned()
        .collect();
    for n in &others {
        let card = hand_of(&room, n)[0].clone();
        room.handle_client_msg(n, gen_of(n), ClientMsg::PlayerChooseCard { card }, &mut out)
            .expect("a match is submitted");
    }
    assert!(matches!(room.stage, RoomStage::Voting));

    for n in &others {
        room.handle_client_msg(
            n,
            gen_of(n),
            ClientMsg::Vote { card: active_card.clone() },
            &mut out,
        )
        .expect("a vote is cast");
    }
    assert!(matches!(room.stage, RoomStage::Results));

    // Everyone found the storyteller's card: two points per voter.
    for n in &others {
        assert_eq!(player_info(&room, n).map(|p| p.points), Some(2));
    }
    assert_eq!(player_info(&room, &active).map(|p| p.points), Some(0));
}

#[test]
fn voting_rejects_the_voters_own_card_and_the_storyteller() {
    let mut room = test_room();
    add_player(&mut room, "a", 0);
    add_player(&mut room, "b", 0);
    add_player(&mut room, "c", 0);
    room.player_order = vec!["a".into(), "b".into(), "c".into()];
    room.active_player = 0;
    room.stage = RoomStage::Voting;
    room.player_to_current_card.push(("a".into(), "ca".into()));
    room.player_to_current_card.push(("b".into(), "cb".into()));
    room.player_to_current_card.push(("c".into(), "cc".into()));
    setup_connected_member(&mut room, "a", "ta", 1);
    setup_connected_member(&mut room, "b", "tb", 2);

    let mut out: Vec<Outbound> = Vec::new();
    room.handle_client_msg("a", 1, ClientMsg::Vote { card: "cb".into() }, &mut out)
        .expect("the storyteller's vote is refused politely");
    assert!(room.player_to_vote.is_empty());
    assert!(out.iter().any(|o| matches!(
        o,
        Outbound::Direct { name, msg: ServerMsg::ErrorMsg(m) }
            if name == "a" && m == "Active player cannot vote"
    )));

    room.handle_client_msg("b", 2, ClientMsg::Vote { card: "cb".into() }, &mut out)
        .expect("a self-vote is refused politely");
    assert!(room.player_to_vote.is_empty());
    assert!(out.iter().any(|o| matches!(
        o,
        Outbound::Direct { name, msg: ServerMsg::ErrorMsg(m) }
            if name == "b" && m == "You cannot vote for your own card"
    )));

    room.handle_client_msg("b", 2, ClientMsg::Vote { card: "zz".into() }, &mut out)
        .expect("an unknown card is refused politely");
    assert!(room.player_to_vote.is_empty());

    room.handle_client_msg("b", 2, ClientMsg::Vote { card: "ca".into() }, &mut out)
        .expect("a valid vote is recorded");
    assert_eq!(room.player_to_vote.len(), 1);
}

#[test]
fn deck_refill_moves_the_discard_pile_back() {
    let deck: Vec<String> = (0..8).map(|i| format!("card-{}", i)).collect();
    let mut room = Room::new("refill", deck, WinCondition::Points { target_points: 10 }, None, 8);
    room.player_order = vec!["a".into(), "b".into(), "c".into()];
    room.players.push(("a".into(), PlayerInfo { connected: true, points: 0, ready: false }));
    room.players.push(("b".into(), PlayerInfo { connected: true, points: 0, ready: false }));
    room.players.push(("c".into(), PlayerInfo { connected: true, points: 0, ready: false }));
    room.deck = vec!["card-0".into(), "card-1".into()];
    room.discard_pile = (2..8).map(|i| format!("card-{}", i)).collect();

    let refilled = room.check_deck();
    assert!(refilled, "two cards cannot serve three players");
    assert_eq!(room.deck.len(), 8);
    assert!(room.discard_pile.is_empty());
    assert_eq!(room.deck_refill_count, 1);

    let mut sorted: Vec<String> = room.deck.clone();
    sorted.sort();
    let expected: Vec<String> = (0..8).map(|i| format!("card-{}", i)).collect();
    assert_eq!(sorted, expected, "a refill neither invents nor loses cards");
}

#[test]
fn cards_finish_never_refills() {
    let deck: Vec<String> = (0..8).map(|i| format!("card-{}", i)).collect();
    let mut room = Room::new("nofill", deck, WinCondition::CardsFinish, None, 8);
    room.player_order = vec!["a".into(), "b".into(), "c".into()];
    room.deck = vec!["card-0".into()];
    room.discard_pile = vec!["card-1".into()];

    let refilled = room.check_deck();
    assert!(!refilled, "a cards-finish game never refills the deck");
    assert_eq!(room.deck.len(), 1);
    assert_eq!(room.discard_pile.len(), 1);
}

#[test]
fn center_cards_are_the_submissions_in_some_order() {
    let mut room = test_room();
    room.player_to_current_card.push(("a".into(), "ca".into()));
    room.player_to_current_card.push(("b".into(), "cb".into()));
    room.player_to_current_card.push(("c".into(), "cc".into()));

    let mut center = room.get_center_cards();
    assert_eq!(center.len(), 3);
    center.sort();
    assert_eq!(center, vec!["ca".to_string(), "cb".to_string(), "cc".to_string()]);
}

#[test]
fn every_card_is_conserved_across_a_round() {
    let deck: Vec<String> = (0..40).map(|i| format!("card-{:02}", i)).collect();
    let mut room = Room::new("keep", deck.clone(), WinCondition::CardsFinish, None, 8);
    let mut out: Vec<Outbound> = Vec::new();

    let ga = room.attempt_join("ann", "ta", &mut out).expect("ann joins");
    let gb = room.attempt_join("ben", "tb", &mut out).expect("ben joins");
    let gc = room.attempt_join("cal", "tc", &mut out).expect("cal joins");
    room.handle_client_msg("ann", ga, ClientMsg::StartGame {}, &mut out)
        .expect("the game starts");

    let active = room.player_order[room.active_player].clone();
    let gen_of = |n: &str| if n == "ann" { ga } else if n == "ben" { gb } else { gc };
    let first_card = |room: &Room, n: &str| {
        room.player_hand.iter().find(|e| e.0 == n).map(|e| e.1[0].clone()).unwrap()
    };
    let card = first_card(&room, &active);
    room.handle_client_msg(
        &active,
        gen_of(&active),
        ClientMsg::ActivePlayerChooseCard { card, description: "clue".into() },
        &mut out,
    )
    .expect("the storyteller chooses");
    let others: Vec<String> =
        room.player_order.iter().filter(|n| **n != active).cloned().collect();
    for n in &others {
        let card = first_card(&room, n);
        room.handle_client_msg(n, gen_of(n), ClientMsg::PlayerChooseCard { card }, &mut out)
            .expect("a match is submitted");
    }
    assert!(matches!(room.stage, RoomStage::Voting));

    // Deck, discard pile and hands together still hold the base deck.
    let mut accounted: Vec<String> = Vec::new();
    accounted.extend(room.deck.iter().cloned());
    accounted.extend(room.discard_pile.iter().cloned());
    for (_, hand) in room.player_hand.iter() {
        accounted.extend(hand.iter().cloned());
    }
    accounted.sort();
    let mut base = deck;
    base.sort();
    assert_eq!(accounted, base, "no card appears, vanishes, or doubles");
}

#[test]
fn maintenance_promotes_a_connected_member_after_moderator_absence() {
    let mut room = test_room();
    add_player(&mut room, "a", 0);
    add_player(&mut room, "b", 0);
    add_player(&mut room, "c", 0);
    room.creator = None;
    room.stage = RoomStage::Joining;
    // No moderator has been connected since the epoch; any later tick is
    // far past the promotion delay.
    room.no_connected_moderator_since_s = Some(0);

    let mut out: Vec<Outbound> = Vec::new();
    room.run_maintenance(1_000_000, &mut out);
    assert_eq!(room.moderators.len(), 1, "one member was promoted to moderator");
    let promoted = room.moderators[0].clone();
    assert!(
        player_info(&room, &promoted).map(|p| p.connected) == Some(true),
        "the promoted member is connected"
    );
    assert!(
        out.iter().any(|o| matches!(o, Outbound::Broadcast(ServerMsg::RoomState(_)))),
        "a promotion is announced with a fresh snapshot"
    );
}

#[test]
fn an_exhausted_deck_pauses_a_points_game() {
    // Nine cards cannot fill three six-card hands under a points win.
    let deck: Vec<String> = (0..9).map(|i| format!("card-{}", i)).collect();
    let mut room = Room::new("dry", deck, WinCondition::Points { target_points: 10 }, None, 8);
    let mut out: Vec<Outbound> = Vec::new();
    let ga = room.attempt_join("ann", "ta", &mut out).expect("ann joins");
    room.attempt_join("ben", "tb", &mut out).expect("ben joins");
    room.attempt_join("cal", "tc", &mut out).expect("cal joins");

    let r = room.handle_client_msg("ann", ga, ClientMsg::StartGame {}, &mut out);
    assert!(r.is_err(), "dealing cannot finish, so the start fails");
    assert!(
        matches!(room.stage, RoomStage::Paused),
        "the room is left paused rather than wedged"
    );
}

#[test]
fn an_exhausted_deck_ends_a_cards_finish_game() {
    let deck: Vec<String> = (0..9).map(|i| format!("card-{}", i)).collect();
    let mut room = Room::new("dryend", deck, WinCondition::CardsFinish, None, 8);
    let mut out: Vec<Outbound> = Vec::new();
    let ga = room.attempt_join("ann", "ta", &mut out).expect("ann joins");
    room.attempt_join("ben", "tb", &mut out).expect("ben joins");
    room.attempt_join("cal", "tc", &mut out).expect("cal joins");

    let r = room.handle_client_msg("ann", ga, ClientMsg::StartGame {}, &mut out);
    assert!(r.is_ok(), "a cards-finish game ends cleanly instead of failing");
    assert!(matches!(room.stage, RoomStage::End));
    assert!(
        out.iter().any(|o| matches!(o, Outbound::Broadcast(ServerMsg::EndGame {}))),
        "everyone hears the game ended"
    );
}

#[test]
fn ninth_lobby_player_is_turned_away() {
    let deck: Vec<String> = (0..512).map(|i| format!("card-{}", i)).collect();
    let mut room = Room::new(
        "lobbycap",
        deck,
        WinCondition::Points { target_points: 10 },
        None,
        64,
    );
    for i in 0..8 {
        let name = format!("p{}", i);
        let token = format!("t{}", i);
        let mut out: Vec<Outbound> = Vec::new();
        let r = room.attempt_join(&name, &token, &mut out);
        assert!(r.is_some(), "lobby seat {} should be granted", i);
    }
    assert_eq!(room.players.len(), 8);
    let mut out: Vec<Outbound> = Vec::new();
    let r = room.attempt_join("p8", "t8", &mut out);
    assert!(r.is_none());
    assert!(matches!(
        out.last(),
        Some(Outbound::ToJoiner(ServerMsg::ErrorMsg(m))) if m == "Room is full"
    ));
    assert_eq!(room.players.len(), 8);
    // A seated name still reconnects past the cap.
    let mut out2: Vec<Outbound> = Vec::new();
    let back = room.attempt_join("p3", "t3", &mut out2);
    assert!(back.is_some());
}

#[test]
fn refused_resume_answers_without_touching_the_round() {
    let mut room = test_room();
    add_player(&mut room, "host", 2);
    add_player(&mut room, "p2", 3);
    room.moderators.push("host".to_string());
    room.stage = RoomStage::Paused;
    room.paused_reason = Some("Need at least 3 non-observer players".to_string());
    room.round = 4;
    setup_connected_member(&mut room, "host", "t-host", 7);

    let mut out: Vec<Outbound> = Vec::new();
    let r = room.handle_client_msg("host", 7, ClientMsg::ResumeGame {}, &mut out);
    assert!(r.is_ok());
    assert!(matches!(room.stage, RoomStage::Paused));
    assert_eq!(room.round, 4, "a refused resume leaves the round alone");
    assert!(matches!(
        out.last(),
        Some(Outbound::Direct { name, msg: ServerMsg::ErrorMsg(m) })
            if name == "host" && m == "Need at least 3 non-observer players to resume"
    ));
}

#[test]
fn successful_resume_redeals_and_tells_every_player() {
    let mut room = test_room();
    add_player(&mut room, "host", 2);
    add_player(&mut room, "p2", 3);
    add_player(&mut room, "p3", 4);
    room.moderators.push("host".to_string());
    room.stage = RoomStage::Paused;
    room.round = 4;
    setup_connected_member(&mut room, "host", "t-host", 7);

    let mut out: Vec<Outbound> = Vec::new();
    let r = room.handle_client_msg("host", 7, ClientMsg::ResumeGame {}, &mut out);
    assert!(r.is_ok());
    assert!(matches!(room.stage, RoomStage::ActiveChooses));
    assert_eq!(room.round, 5, "a resumed game starts the next round");
    for entry in &room.player_hand {
        assert_eq!(entry.1.len(), 6, "every hand is filled back to six");
    }
    for name in ["host", "p2", "p3"] {
        assert!(
            out.iter().any(|o| matches!(
                o,
                Outbound::Direct { name: n, msg: ServerMsg::StartRound { .. } } if n == name
            )),
            "{} hears the fresh round",
            name
        );
    }
    assert!(matches!(
        out.last(),
        Some(Outbound::Broadcast(ServerMsg::RoomState(_)))
    ));
}

#[test]
fn invalid_storyteller_submissions_are_refused_in_place() {
    let mut room = test_room();
    add_player(&mut room, "a", 0);
    add_player(&mut room, "b", 0);
    add_player(&mut room, "c", 0);
    room.player_order = vec!["a".into(), "b".into(), "c".into()];
    room.active_player = 0;
    room.round = 1;
    room.stage = RoomStage::ActiveChooses;
    setup_connected_member(&mut room, "a", "ta", 1);

    let mut out: Vec<Outbound> = Vec::new();
    let r = room.handle_client_msg(
        "a",
        1,
        ClientMsg::ActivePlayerChooseCard {
            card: "not-in-hand".to_string(),
            description: "a fine tale".to_string(),
        },
        &mut out,
    );
    assert!(r.is_ok());
    assert!(matches!(room.stage, RoomStage::ActiveChooses));
    assert!(room.player_to_current_card.is_empty());
    assert!(matches!(
        out.last(),
        Some(Outbound::Direct { name, msg: ServerMsg::ErrorMsg(m) })
            if name == "a" && m == "Invalid card"
    ));

    let r2 = room.handle_client_msg(
        "a",
        1,
        ClientMsg::ActivePlayerChooseCard {
            card: "a-1".to_string(),
            description: "   ".to_string(),
        },
        &mut out,
    );
    assert!(r2.is_ok());
    assert!(matches!(room.stage, RoomStage::ActiveChooses));
    assert!(room.player_to_current_card.is_empty());
    assert!(matches!(
        out.last(),
        Some(Outbound::Direct { name, msg: ServerMsg::ErrorMsg(m) })
            if name == "a" && m == "Description must not be empty"
    ));
}

#[test]
fn storyteller_choice_opens_submissions_for_everyone() {
    let mut room = test_room();
    add_player(&mut room, "a", 0);
    add_player(&mut room, "b", 0);
    add_player(&mut room, "c", 0);
    room.player_order = vec!["a".into(), "b".into(), "c".into()];
    room.players.iter_mut().for_each(|e| e.1.ready = true);
    room.active_player = 0;
    room.round = 1;
    room.stage = RoomStage::ActiveChooses;
    setup_connected_member(&mut room, "a", "ta", 1);

    let mut out: Vec<Outbound> = Vec::new();
    let r = room.handle_client_msg(
        "a",
        1,
        ClientMsg::ActivePlayerChooseCard {
            card: "a-1".to_string(),
            description: "  a fine tale  ".to_string(),
        },
        &mut out,
    );
    assert!(r.is_ok());
    assert!(matches!(room.stage, RoomStage::PlayersChoose));
    assert_eq!(room.current_description, "a fine tale");
    assert!(room.players.iter().all(|e| !e.1.ready), "readiness is cleared");
    for name in ["a", "b", "c"] {
        assert!(
            out.iter().any(|o| matches!(
                o,
                Outbound::Direct { name: n, msg: ServerMsg::PlayersChoose { description, .. } }
                    if n == name && description == "a fine tale"
            )),
            "{} hears the description with their hand",
            name
        );
    }
    assert!(matches!(
        out.last(),
        Some(Outbound::Broadcast(ServerMsg::RoomState(_)))
    ));
}
