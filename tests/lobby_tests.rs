use skat_server::knows_skat::{KnowsSkatRules, Outgoing, Peer, Player, NPC};
use skat_server::lobby::{Lobby, LobbyCommand};
use skat_server::pending_game::PendingGame;
use skat_server::proto::{Card, Message, PlayerJoinMessage, Rank, Suit};

fn msgs_to(out: &[Outgoing], id: u32) -> Vec<Message> {
    out.iter().filter(|o| o.to == id).map(|o| o.msg.clone()).collect()
}

fn join_msg(id: u32, name: &str) -> Message {
    Message::PlayerJoin(PlayerJoinMessage { id, name: name.to_string() })
}

fn connect(l: &mut Lobby, name: &str, out: &mut Vec<Outgoing>) -> u32 {
    l.add_new_player(name.to_string(), out).unwrap()
}

#[test]
fn test_default_game_1() {
    let mut l = Lobby::new();
    let mut out = Vec::new();
    let id_1 = connect(&mut l, "Markus Rühl", &mut out);
    l.handle(LobbyCommand::JoinGame { player_id: id_1 }, &mut out);
    let s1 = msgs_to(&out, 0);
    assert_eq!(s1[0], Message::ConfirmJoin(0));
    assert_eq!(s1[1], join_msg(0, "Markus Rühl"));

    let id_2 = connect(&mut l, "Elon", &mut out);
    let id_3 = connect(&mut l, "Mr. Beast", &mut out);
    l.handle(LobbyCommand::JoinGame { player_id: id_2 }, &mut out);
    l.handle(LobbyCommand::JoinGame { player_id: id_3 }, &mut out);

    let s2 = msgs_to(&out, 1);
    let s3 = msgs_to(&out, 2);
    assert_eq!(s2[0], Message::ConfirmJoin(1));
    assert_eq!(s3[0], Message::ConfirmJoin(2));
    assert_eq!(s2[1], join_msg(0, "Markus Rühl"));
    assert_eq!(s2[2], join_msg(1, "Elon"));
    assert_eq!(s3[1], join_msg(0, "Markus Rühl"));
    assert_eq!(s3[2], join_msg(1, "Elon"));
    assert_eq!(s3[3], join_msg(2, "Mr. Beast"));

    let s1 = msgs_to(&out, 0);
    // one greeting and six seating notices, then the deal
    for stream in [&s1[7..], &s2[6..], &s3[4..]] {
        for k in 0..10 {
            assert!(matches!(stream[k], Message::DrawCard(_)));
        }
    }
}

#[test]
fn three_players_get_increasing_ids_and_one_seating() {
    let mut l = Lobby::new();
    let mut out = Vec::new();
    let a = connect(&mut l, "a", &mut out);
    let b = connect(&mut l, "b", &mut out);
    let c = connect(&mut l, "c", &mut out);
    assert!(a < b && b < c);
    assert_eq!((a, b, c), (0, 1, 2));
    let mut seat_out = Vec::new();
    l.handle(LobbyCommand::JoinGame { player_id: c }, &mut seat_out);
    l.handle(LobbyCommand::JoinGame { player_id: a }, &mut seat_out);
    let before = seat_out.len();
    l.handle(LobbyCommand::JoinGame { player_id: b }, &mut seat_out);
    let last = &seat_out[before..before + 9];
    let seating = vec![join_msg(c, "c"), join_msg(a, "a"), join_msg(b, "b")];
    for id in [a, b, c] {
        assert_eq!(msgs_to(last, id), seating);
    }
    assert_eq!(l.games.len(), 1);
    assert!(l.players.is_empty());
    assert_eq!(l.pending_game.player_count, 0);
    let d = connect(&mut l, "d", &mut out);
    assert_eq!(d, 3);
}

#[test]
fn leaving_a_pending_seat() {
    let mut l = Lobby::new();
    let mut out = Vec::new();
    let a = connect(&mut l, "a", &mut out);
    let b = connect(&mut l, "b", &mut out);
    let c = connect(&mut l, "c", &mut out);
    l.handle(LobbyCommand::JoinGame { player_id: a }, &mut out);
    l.handle(LobbyCommand::JoinGame { player_id: b }, &mut out);
    assert_eq!(l.pending_game.player_count, 2);
    let mut leave_out = Vec::new();
    l.handle(LobbyCommand::Disconnect { player_id: a }, &mut leave_out);
    assert_eq!(l.pending_game.player_count, 1);
    assert_eq!(l.pending_game.seats[0].id(), b);
    assert_eq!(leave_out, vec![Outgoing { to: b, msg: Message::PlayerLeave(a) }]);
    assert_eq!(l.players.len(), 1);
    assert_eq!(l.players[0].id(), c);
    assert_eq!(l.players[0].name(), "c");
}

#[test]
fn leaving_a_running_game() {
    let mut l = Lobby::new();
    let mut out = Vec::new();
    let a = connect(&mut l, "a", &mut out);
    let b = connect(&mut l, "b", &mut out);
    let c = connect(&mut l, "c", &mut out);
    let d = connect(&mut l, "d", &mut out);
    for id in [a, b, c] {
        l.handle(LobbyCommand::JoinGame { player_id: id }, &mut out);
    }
    assert_eq!(l.games.len(), 1);
    let mut leave_out = Vec::new();
    l.handle(LobbyCommand::Disconnect { player_id: b }, &mut leave_out);
    assert!(l.games.is_empty());
    let ids: Vec<u32> = l.players.iter().map(|p| p.id()).collect();
    assert_eq!(ids, vec![d, a, c]);
    assert_eq!(
        leave_out,
        vec![
            Outgoing { to: a, msg: Message::BackToLobby },
            Outgoing { to: c, msg: Message::BackToLobby },
        ]
    );
    assert!(!leave_out.iter().any(|o| matches!(o.msg, Message::GameWon(_))));
}

#[test]
fn disconnecting_an_unknown_id_still_notifies_seats() {
    let mut l = Lobby::new();
    let mut out = Vec::new();
    let a = connect(&mut l, "a", &mut out);
    l.handle(LobbyCommand::JoinGame { player_id: a }, &mut out);
    let mut leave_out = Vec::new();
    l.handle(LobbyCommand::Disconnect { player_id: 42 }, &mut leave_out);
    assert_eq!(leave_out, vec![Outgoing { to: a, msg: Message::PlayerLeave(42) }]);
    assert_eq!(l.pending_game.player_count, 1);
}

#[test]
fn login_renames_a_waiting_player() {
    let mut l = Lobby::new();
    let mut out = Vec::new();
    let a = connect(&mut l, "", &mut out);
    let mut cmd_out = Vec::new();
    l.handle(LobbyCommand::Login { player_id: a, name: "Ann".to_string() }, &mut cmd_out);
    assert!(cmd_out.is_empty());
    assert_eq!(l.players[0].name(), "Ann");
    l.handle(LobbyCommand::Login { player_id: 9, name: "Zed".to_string() }, &mut cmd_out);
    assert_eq!(l.players.len(), 1);
    assert_eq!(l.players[0].name(), "Ann");
}

#[test]
fn join_of_unknown_player_does_nothing() {
    let mut l = Lobby::new();
    let mut out = Vec::new();
    l.handle(LobbyCommand::JoinGame { player_id: 3 }, &mut out);
    assert!(out.is_empty());
    assert_eq!(l.pending_game.player_count, 0);
}

#[test]
fn bots_fill_a_table() {
    let mut l = Lobby::new();
    let mut out = Vec::new();
    let a = connect(&mut l, "a", &mut out);
    let b = connect(&mut l, "b", &mut out);
    l.handle(LobbyCommand::JoinGame { player_id: a }, &mut out);
    l.handle(LobbyCommand::JoinGame { player_id: b }, &mut out);
    let mut start_out = Vec::new();
    l.handle(LobbyCommand::AddNPC, &mut start_out);
    assert_eq!(l.games.len(), 1);
    assert_eq!(l.player_count, 3);
    let g = &l.games[0];
    assert_eq!(g.player_3.id(), 2);
    assert_eq!(g.player_3.name(), "NPC");
    // the bot hears nothing: only the two players get messages
    assert!(start_out.iter().all(|o| o.to == a || o.to == b));
    assert_eq!(msgs_to(&start_out, a)[..3], [join_msg(a, "a"), join_msg(b, "b"), join_msg(2, "NPC")]);
}

#[test]
fn three_bots_pass_out_a_round() {
    let mut l = Lobby::new();
    let mut out = Vec::new();
    for _ in 0..3 {
        l.handle(LobbyCommand::AddNPC, &mut out);
    }
    assert!(out.is_empty());
    assert!(l.games.is_empty());
    let ids: Vec<u32> = l.players.iter().map(|p| p.id()).collect();
    assert_eq!(ids, vec![0, 1, 2]);
    assert!(l.players.iter().all(|p| !p.is_remote()));
    assert_eq!(l.pending_game.player_count, 0);
    assert_eq!(l.game_count, 1);
}

#[test]
fn npc_plays_its_script() {
    let mut n = NPC::new(7);
    assert_eq!(n.id(), 7);
    assert_eq!(KnowsSkatRules::name(&n), "NPC");
    assert_eq!(n.expect_message(), Some(Message::PlayCard(Card { suit: Suit::Spades, rank: Rank::Ace })));
    assert_eq!(n.expect_message(), Some(Message::PlayCard(Card { suit: Suit::Diamonds, rank: Rank::Ace })));
    assert_eq!(n.expect_message(), Some(Message::PlayCard(Card { suit: Suit::Clubs, rank: Rank::Ace })));
    assert_eq!(n.expect_message(), Some(Message::PlayCard(Card { suit: Suit::Hearts, rank: Rank::Ace })));
    assert_eq!(n.expect_message(), None);
    let mut box_out = Vec::new();
    n.send_message(Message::YourTurn, &mut box_out);
    assert!(box_out.is_empty());
    let p = Player::new(3, "Pia".to_string());
    p.send_message(Message::YourTurn, &mut box_out);
    assert_eq!(box_out, vec![Outgoing { to: 3, msg: Message::YourTurn }]);
}

#[test]
fn pending_game_compacts_seats() {
    let mut p = PendingGame::new();
    let mut out = Vec::new();
    assert!(p.add_player(Peer::Human(Player::new(1, "x".to_string())), 0, &mut out).is_none());
    assert!(p.add_player(Peer::Human(Player::new(2, "y".to_string())), 0, &mut out).is_none());
    assert_eq!(out.len(), 1 + 4);
    let mut leave = Vec::new();
    p.try_remove_player(1, &mut leave);
    assert_eq!(p.player_count, 1);
    assert_eq!(p.seats[0].id(), 2);
    assert_eq!(leave, vec![Outgoing { to: 2, msg: Message::PlayerLeave(1) }]);
    let g = p.add_npc(5, 9, &mut out);
    assert!(g.is_none());
    let g = p.add_player(Peer::Human(Player::new(3, "z".to_string())), 9, &mut out).unwrap();
    assert_eq!(g.id, 9);
    assert!(g.has_player_by_id(5));
    assert!(!g.has_player_by_id(1));
    assert_eq!(p.player_count, 0);
    let peers = g.close();
    let ids: Vec<u32> = peers.iter().map(|q| q.id()).collect();
    assert_eq!(ids, vec![2, 5, 3]);
}

fn hand_of(l: &Lobby, seat: usize) -> Vec<Card> {
    let r = &l.games[0].round;
    match seat {
        0 => r.hand_0.clone(),
        1 => r.hand_1.clone(),
        _ => r.hand_2.clone(),
    }
}

#[test]
fn lobby_game_runs_to_the_end() {
    let mut l = Lobby::new();
    let mut out = Vec::new();
    let ids: Vec<u32> = ["a", "b", "c"].iter().map(|n| connect(&mut l, n, &mut out)).collect();
    for id in &ids {
        l.handle(LobbyCommand::JoinGame { player_id: *id }, &mut out);
    }
    let mut play = Vec::new();
    l.game_message(ids[1], Message::Bid(18), &mut play);
    assert_eq!(msgs_to(&play, ids[0]), vec![Message::NewBid(18)]);
    l.game_message(ids[1], Message::Bid(0), &mut play);
    l.game_message(ids[2], Message::Bid(0), &mut play);
    l.game_message(ids[0], Message::Bid(0), &mut play);
    assert_eq!(l.games[0].round.solo, Some(1));
    for _ in 0..2 {
        let c = hand_of(&l, 1)[0];
        l.game_message(ids[1], Message::PlayCard(c), &mut play);
    }
    l.game_message(ids[1], Message::Trump(Suit::Spades), &mut play);
    while !l.games.is_empty() {
        let seat = l.games[0].round.waiting_for().unwrap();
        let c = hand_of(&l, seat)[0];
        l.game_message(ids[seat], Message::PlayCard(c), &mut play);
    }
    assert_eq!(l.players.len(), 3);
    let won: Vec<&Outgoing> = play.iter().filter(|o| matches!(o.msg, Message::GameWon(_))).collect();
    assert_eq!(won.len(), 3);
    if let Message::GameWon(w) = &won[0].msg {
        assert_eq!(w.winner_points + w.loser_points, 120);
        match w.id {
            Some(winner) => assert!(winner == ids[1] || winner == ids[2]),
            None => assert_eq!(w.winner_points, 60),
        }
    }
}

#[test]
fn leaving_twice_changes_nothing_more() {
    let mut l = Lobby::new();
    let mut out = Vec::new();
    let a = connect(&mut l, "a", &mut out);
    let b = connect(&mut l, "b", &mut out);
    let c = connect(&mut l, "c", &mut out);
    l.handle(LobbyCommand::JoinGame { player_id: a }, &mut out);
    l.handle(LobbyCommand::JoinGame { player_id: b }, &mut out);
    l.handle(LobbyCommand::Disconnect { player_id: a }, &mut out);
    let mut again = Vec::new();
    l.handle(LobbyCommand::Disconnect { player_id: a }, &mut again);
    assert_eq!(again, vec![Outgoing { to: b, msg: Message::PlayerLeave(a) }]);
    assert_eq!(l.pending_game.player_count, 1);
    assert_eq!(l.players.len(), 1);
    assert_eq!(l.players[0].id(), c);
}

#[test]
fn bot_returns_to_the_pool_when_a_player_leaves() {
    let mut l = Lobby::new();
    let mut out = Vec::new();
    let a = connect(&mut l, "a", &mut out);
    let b = connect(&mut l, "b", &mut out);
    l.handle(LobbyCommand::JoinGame { player_id: a }, &mut out);
    l.handle(LobbyCommand::JoinGame { player_id: b }, &mut out);
    l.handle(LobbyCommand::AddNPC, &mut out);
    assert_eq!(l.games.len(), 1);
    let mut leave_out = Vec::new();
    l.handle(LobbyCommand::Disconnect { player_id: a }, &mut leave_out);
    assert!(l.games.is_empty());
    let ids: Vec<u32> = l.players.iter().map(|p| p.id()).collect();
    assert_eq!(ids, vec![b, 2]);
    assert_eq!(l.players[1].name(), "NPC");
    assert!(!l.players[1].is_remote());
    assert_eq!(leave_out, vec![Outgoing { to: b, msg: Message::BackToLobby }]);
}
