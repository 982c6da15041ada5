use skat_server::deck::{evaluate_cards_value, fresh_deck, new_shuffled_deck};
use skat_server::proto::{Card, Message, Rank, Suit};
use skat_server::round::{Delivery, Phase, Round};

const IDS: [u32; 3] = [40, 41, 42];

fn hand(r: &Round, seat: usize) -> Vec<Card> {
    match seat {
        0 => r.hand_0.clone(),
        1 => r.hand_1.clone(),
        _ => r.hand_2.clone(),
    }
}

fn to_all(msg: Message) -> Vec<Delivery> {
    (0..3).map(|seat| Delivery { seat, msg: msg.clone() }).collect()
}

/// Bids 10 then passes from seat 1, 12 then passes from seat 2, pass from seat 0.
fn auction(r: &mut Round) -> Vec<Delivery> {
    let mut out = Vec::new();
    out.extend(r.handle(1, Message::Bid(10)));
    out.extend(r.handle(1, Message::Bid(0)));
    out.extend(r.handle(2, Message::Bid(12)));
    out.extend(r.handle(2, Message::Bid(0)));
    out.extend(r.handle(0, Message::Bid(0)));
    out
}

/// Plays the round to its end, each seat playing the first card of its hand.
fn play_out(r: &mut Round) -> Vec<Delivery> {
    let solo = r.solo.unwrap();
    let mut out = Vec::new();
    for _ in 0..2 {
        let c = hand(r, solo)[0];
        out.extend(r.handle(solo, Message::PlayCard(c)));
    }
    out.extend(r.handle(solo, Message::Trump(Suit::Clubs)));
    while let Some(seat) = r.waiting_for() {
        let c = hand(r, seat)[0];
        out.extend(r.handle(seat, Message::PlayCard(c)));
    }
    out
}

#[test]
fn deal_gives_ten_cards_each_and_a_skat() {
    let deck = fresh_deck();
    let (r, out) = Round::new(&deck, IDS);
    assert_eq!(r.hand_0.len(), 10);
    assert_eq!(r.hand_1.len(), 10);
    assert_eq!(r.hand_2.len(), 10);
    assert_eq!(r.skat, vec![deck[30], deck[31]]);
    assert_eq!(r.hand_1[3], deck[10]);
    assert_eq!(out.len(), 33);
    assert_eq!(out[4], Delivery { seat: 1, msg: Message::DrawCard(deck[4]) });
    assert_eq!(out[30], Delivery { seat: 0, msg: Message::Hear });
    assert_eq!(out[31], Delivery { seat: 1, msg: Message::Say });
    assert_eq!(out[32], Delivery { seat: 2, msg: Message::SayFurther });
    assert_eq!(r.phase, Phase::Bidding);
}

#[test]
fn second_bidder_wins_the_auction() {
    let deck = fresh_deck();
    let (mut r, _) = Round::new(&deck, IDS);
    let mut out = r.handle(1, Message::Bid(10));
    assert_eq!(out, to_all(Message::NewBid(10)));
    assert!(r.handle(1, Message::Bid(0)).is_empty());
    out = r.handle(2, Message::Bid(12));
    assert_eq!(out, to_all(Message::NewBid(12)));
    assert!(r.handle(2, Message::Bid(0)).is_empty());
    out = r.handle(0, Message::Bid(0));
    assert_eq!(r.solo, Some(2));
    assert_eq!(r.high_bid, 12);
    assert_eq!(r.phase, Phase::SkatExchange);
    assert_eq!(
        out,
        vec![
            Delivery { seat: 0, msg: Message::PlayNormalDuo },
            Delivery { seat: 1, msg: Message::PlayNormalDuo },
            Delivery { seat: 2, msg: Message::PlayNormalSolo },
            Delivery { seat: 2, msg: Message::DrawCard(deck[31]) },
            Delivery { seat: 2, msg: Message::DrawCard(deck[30]) },
        ]
    );
    assert_eq!(r.hand_2.len(), 12);
}

#[test]
fn auction_broadcasts_only_the_two_bids() {
    let (mut r, _) = Round::new(&fresh_deck(), IDS);
    let out = auction(&mut r);
    let bids: Vec<Message> = out
        .iter()
        .filter(|d| matches!(d.msg, Message::NewBid(_)))
        .map(|d| d.msg.clone())
        .collect();
    assert_eq!(bids, vec![Message::NewBid(10); 3].into_iter().chain(vec![Message::NewBid(12); 3]).collect::<Vec<_>>());
    assert_eq!(r.solo, Some(2));
}

#[test]
fn all_pass_ends_before_trick_play() {
    let (mut r, _) = Round::new(&fresh_deck(), IDS);
    let mut out = Vec::new();
    out.extend(r.handle(1, Message::Bid(0)));
    out.extend(r.handle(2, Message::Bid(0)));
    out.extend(r.handle(0, Message::Bid(0)));
    assert!(out.is_empty());
    assert_eq!(r.phase, Phase::AllPassed);
    assert_eq!(r.solo, None);
    assert!(r.is_over());
    assert_eq!(r.waiting_for(), None);
    let c = r.hand_0[0];
    assert!(r.handle(0, Message::PlayCard(c)).is_empty());
    assert_eq!(r.phase, Phase::AllPassed);
}

#[test]
fn out_of_turn_messages_are_ignored() {
    let (mut r, _) = Round::new(&fresh_deck(), IDS);
    assert!(r.handle(0, Message::Bid(18)).is_empty());
    assert!(r.handle(1, Message::Trump(Suit::Hearts)).is_empty());
    assert!(r.handle(1, Message::YourTurn).is_empty());
    assert_eq!(r.high_bid, 0);
    assert_eq!(r.solo, None);
    assert_eq!(r.bidder, 0);
}

#[test]
fn card_not_in_hand_is_ignored() {
    let (mut r, _) = Round::new(&fresh_deck(), IDS);
    auction(&mut r);
    let foreign = r.hand_0[0];
    assert!(r.handle(2, Message::PlayCard(foreign)).is_empty());
    assert_eq!(r.hand_2.len(), 12);
    assert!(r.solo_pile.is_empty());
}

#[test]
fn discards_go_to_the_solo_pile() {
    let (mut r, _) = Round::new(&fresh_deck(), IDS);
    auction(&mut r);
    let a = r.hand_2[0];
    let b = r.hand_2[1];
    r.handle(2, Message::PlayCard(a));
    assert_eq!(r.phase, Phase::SkatExchange);
    r.handle(2, Message::PlayCard(b));
    assert_eq!(r.phase, Phase::TrumpDeclaration);
    assert_eq!(r.solo_pile, vec![a, b]);
    let out = r.handle(2, Message::Trump(Suit::Hearts));
    let mut expected = to_all(Message::Trump(Suit::Hearts));
    expected.push(Delivery { seat: 0, msg: Message::YourTurn });
    assert_eq!(out, expected);
    assert_eq!(r.trump, Suit::Hearts);
    assert_eq!(r.phase, Phase::TrickPlay);
}

#[test]
fn trick_goes_to_the_winner() {
    let (mut r, _) = Round::new(&fresh_deck(), IDS);
    auction(&mut r);
    let a = r.hand_2[0];
    let b = r.hand_2[1];
    r.handle(2, Message::PlayCard(a));
    r.handle(2, Message::PlayCard(b));
    r.handle(2, Message::Trump(Suit::Clubs));
    // Seat 0 holds the Hearts Seven, Ten and King of a fresh deck among others.
    let c0 = Card { suit: Suit::Hearts, rank: Rank::Seven };
    let c1 = Card { suit: Suit::Hearts, rank: Rank::Eight };
    let c2 = Card { suit: Suit::Hearts, rank: Rank::Nine };
    assert!(r.hand_0.contains(&c0) && r.hand_1.contains(&c1));
    assert_eq!(r.handle(0, Message::PlayCard(c0)), vec![Delivery { seat: 1, msg: Message::YourTurn }]);
    assert_eq!(r.handle(1, Message::PlayCard(c1)), vec![Delivery { seat: 2, msg: Message::YourTurn }]);
    let held = r.hand_2.contains(&c2);
    let c = if held { c2 } else { r.hand_2[0] };
    let out = r.handle(2, Message::PlayCard(c));
    assert_eq!(r.tricks_played, 1);
    assert!(r.trick.is_empty());
    assert_eq!(out, vec![Delivery { seat: r.leader, msg: Message::YourTurn }]);
    if held {
        assert_eq!(r.leader, 2);
        assert_eq!(r.solo_pile.len(), 5);
    }
}

#[test]
fn finished_round_scores_120() {
    for _ in 0..10 {
        let deck = new_shuffled_deck();
        let (mut r, _) = Round::new(&deck, IDS);
        auction(&mut r);
        let out = play_out(&mut r);
        assert_eq!(r.phase, Phase::Finished);
        assert_eq!(r.tricks_played, 10);
        assert!(r.hand_0.is_empty() && r.hand_1.is_empty() && r.hand_2.is_empty());
        let solo = evaluate_cards_value(&r.solo_pile);
        let duo = evaluate_cards_value(&r.duo_pile);
        assert_eq!(solo + duo, 120);
        assert_eq!(r.solo_pile.len() + r.duo_pile.len(), 32);
        let last = &out[out.len() - 3..];
        for (seat, d) in last.iter().enumerate() {
            assert_eq!(d.seat, seat);
            match &d.msg {
                Message::GameWon(w) => {
                    assert_eq!(w.winner_points + w.loser_points, 120);
                    if solo > duo {
                        assert_eq!(w.id, Some(42));
                        assert_eq!(w.winner_points, solo);
                    } else if solo < duo {
                        assert_eq!(w.id, Some(40));
                        assert_eq!(w.winner_points, duo);
                    } else {
                        assert_eq!(w.id, None);
                        assert_eq!(w.winner_points, 60);
                    }
                }
                other => panic!("unexpected {:?}", other),
            }
        }
        assert!(r.waiting_for().is_none());
    }
}

#[test]
fn default_moves() {
    let (mut r, _) = Round::new(&fresh_deck(), IDS);
    assert_eq!(r.default_move(1), Message::Bid(0));
    auction(&mut r);
    assert_eq!(r.default_move(2), Message::PlayCard(r.hand_2[0]));
    let a = r.hand_2[0];
    let b = r.hand_2[1];
    r.handle(2, Message::PlayCard(a));
    r.handle(2, Message::PlayCard(b));
    assert_eq!(r.default_move(2), Message::Trump(Suit::Clubs));
}
