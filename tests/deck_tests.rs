use skat_server::deck::{
    evaluate_cards_value, evaluate_round_winner, fresh_deck, new_shuffled_deck, trick_color, turn_order,
};
use skat_server::proto::{normal_rank_value, Card, Rank, Suit};

fn card(suit: Suit, rank: Rank) -> Card {
    Card { suit, rank }
}

fn all_cards() -> Vec<Card> {
    let mut v = Vec::new();
    for suit in [Suit::Hearts, Suit::Diamonds, Suit::Clubs, Suit::Spades] {
        for rank in [
            Rank::Seven,
            Rank::Eight,
            Rank::Nine,
            Rank::Ten,
            Rank::Jack,
            Rank::Queen,
            Rank::King,
            Rank::Ace,
        ] {
            v.push(card(suit, rank));
        }
    }
    v
}

#[test]
fn rank_points_table() {
    assert_eq!(Rank::Seven.value(), 0);
    assert_eq!(Rank::Eight.value(), 0);
    assert_eq!(Rank::Nine.value(), 0);
    assert_eq!(Rank::Jack.value(), 2);
    assert_eq!(Rank::Queen.value(), 3);
    assert_eq!(Rank::King.value(), 4);
    assert_eq!(Rank::Ten.value(), 10);
    assert_eq!(Rank::Ace.value(), 11);
}

#[test]
fn normal_rank_order() {
    let order = [Rank::Seven, Rank::Eight, Rank::Nine, Rank::Queen, Rank::King, Rank::Ten, Rank::Ace];
    for w in order.windows(2) {
        assert!(normal_rank_value(&w[0]) < normal_rank_value(&w[1]));
    }
    for r in order {
        assert!(normal_rank_value(&Rank::Jack) > normal_rank_value(&r));
    }
}

#[test]
fn fresh_deck_lists_every_card_once() {
    let deck = fresh_deck();
    assert_eq!(deck, all_cards());
}

#[test]
fn shuffled_deck_is_complete() {
    for _ in 0..20 {
        let deck = new_shuffled_deck();
        assert_eq!(deck.len(), 32);
        for c in all_cards() {
            assert_eq!(deck.iter().filter(|d| **d == c).count(), 1);
        }
    }
}

#[test]
fn shuffled_decks_differ_in_order() {
    let first = new_shuffled_deck();
    let mut differs = false;
    for _ in 0..10 {
        if new_shuffled_deck() != first {
            differs = true;
        }
    }
    assert!(differs);
}

#[test]
fn full_deck_is_worth_120() {
    assert_eq!(evaluate_cards_value(&fresh_deck()), 120);
    assert_eq!(evaluate_cards_value(&new_shuffled_deck()), 120);
}

#[test]
fn pile_values() {
    assert_eq!(evaluate_cards_value(&vec![]), 0);
    let pile = vec![card(Suit::Hearts, Rank::Ace), card(Suit::Clubs, Rank::Ten), card(Suit::Spades, Rank::Jack)];
    assert_eq!(evaluate_cards_value(&pile), 23);
}

#[test]
fn turn_order_wraps() {
    assert_eq!(turn_order(0), vec![0, 1, 2]);
    assert_eq!(turn_order(1), vec![1, 2, 0]);
    assert_eq!(turn_order(2), vec![2, 0, 1]);
    assert_eq!(turn_order(5), vec![2, 0, 1]);
}

#[test]
fn led_suit_without_trump() {
    let a = card(Suit::Hearts, Rank::Nine);
    let b = card(Suit::Hearts, Rank::Ace);
    let c = card(Suit::Diamonds, Rank::Ace);
    assert_eq!(trick_color(&a, &b, &c, &Suit::Clubs), Suit::Hearts);
    assert_eq!(evaluate_round_winner(a, b, c, Suit::Clubs), 1);
}

#[test]
fn off_suit_card_never_wins() {
    let a = card(Suit::Hearts, Rank::Seven);
    let b = card(Suit::Diamonds, Rank::Ace);
    let c = card(Suit::Spades, Rank::Ten);
    assert_eq!(evaluate_round_winner(a, b, c, Suit::Clubs), 0);
}

#[test]
fn trump_beats_led_suit() {
    let a = card(Suit::Hearts, Rank::Ace);
    let b = card(Suit::Clubs, Rank::Seven);
    let c = card(Suit::Hearts, Rank::Ten);
    assert_eq!(trick_color(&a, &b, &c, &Suit::Clubs), Suit::Clubs);
    assert_eq!(evaluate_round_winner(a, b, c, Suit::Clubs), 1);
}

#[test]
fn jack_is_trump_in_every_suit() {
    let a = card(Suit::Hearts, Rank::Ace);
    let b = card(Suit::Hearts, Rank::Ten);
    let c = card(Suit::Diamonds, Rank::Jack);
    assert_eq!(trick_color(&a, &b, &c, &Suit::Spades), Suit::Spades);
    assert_eq!(evaluate_round_winner(a, b, c, Suit::Spades), 2);
}

#[test]
fn jack_beats_trump_ace() {
    let a = card(Suit::Spades, Rank::Ace);
    let b = card(Suit::Hearts, Rank::Jack);
    let c = card(Suit::Spades, Rank::Ten);
    assert_eq!(evaluate_round_winner(a, b, c, Suit::Spades), 1);
}

#[test]
fn jacks_ranked_clubs_spades_hearts_diamonds() {
    let dj = card(Suit::Diamonds, Rank::Jack);
    let hj = card(Suit::Hearts, Rank::Jack);
    let sj = card(Suit::Spades, Rank::Jack);
    let cj = card(Suit::Clubs, Rank::Jack);
    assert_eq!(evaluate_round_winner(cj, sj, hj, Suit::Hearts), 0);
    assert_eq!(evaluate_round_winner(dj, sj, hj, Suit::Hearts), 1);
    assert_eq!(evaluate_round_winner(dj, hj, cj, Suit::Hearts), 2);
}
