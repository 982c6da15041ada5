use vstd::prelude::*;
use vstd::seq_lib::*;
use crate::proto::{Card, Rank, Suit, rank_points, spec_normal_rank_value, normal_rank_value};

verus! {

broadcast use {group_to_multiset_ensures, vstd::multiset::group_multiset_axioms};

/// Number of cards in a deck.
pub const DECK_SIZE: usize = 32;

/// Suits in the order in which a fresh deck lists them.
pub open spec fn suit_at(i: int) -> Suit {
    if i == 0 {
        Suit::Hearts
    } else if i == 1 {
        Suit::Diamonds
    } else if i == 2 {
        Suit::Clubs
    } else {
        Suit::Spades
    }
}

/// Ranks in the order in which a fresh deck lists them inside a suit.
pub open spec fn rank_at(i: int) -> Rank {
    if i == 0 {
        Rank::Seven
    } else if i == 1 {
        Rank::Eight
    } else if i == 2 {
        Rank::Nine
    } else if i == 3 {
        Rank::Ten
    } else if i == 4 {
        Rank::Jack
    } else if i == 5 {
        Rank::Queen
    } else if i == 6 {
        Rank::King
    } else {
        Rank::Ace
    }
}

pub open spec fn suit_index(s: Suit) -> int {
    match s {
        Suit::Hearts => 0,
        Suit::Diamonds => 1,
        Suit::Clubs => 2,
        Suit::Spades => 3,
    }
}

pub open spec fn rank_index(r: Rank) -> int {
    match r {
        Rank::Seven => 0,
        Rank::Eight => 1,
        Rank::Nine => 2,
        Rank::Ten => 3,
        Rank::Jack => 4,
        Rank::Queen => 5,
        Rank::King => 6,
        Rank::Ace => 7,
    }
}

/// The unshuffled deck: every suit in turn, each with its eight ranks.
pub open spec fn full_deck() -> Seq<Card> {
    Seq::new(32, |k: int| Card { suit: suit_at(k / 8), rank: rank_at(k % 8) })
}

/// Position of a card in the unshuffled deck.
pub open spec fn card_index(c: Card) -> int {
    suit_index(c.suit) * 8 + rank_index(c.rank)
}

/// Total points of a sequence of cards.
pub open spec fn card_points(s: Seq<Card>) -> nat
    decreases s.len(),
{
    if s.len() == 0 {
        0
    } else {
        card_points(s.drop_last()) + rank_points(s.last().rank)
    }
}

/// A deck holds each of the 32 cards exactly once.
pub open spec fn is_complete_deck(s: Seq<Card>) -> bool {
    &&& s.len() == 32
    &&& s.no_duplicates()
    &&& forall|c: Card| s.contains(c)
}

/// The unshuffled deck lists every card once, at the position `card_index` gives.
pub proof fn lemma_full_deck_complete()
    ensures
        is_complete_deck(full_deck()),
        forall|c: Card| #[trigger] full_deck()[card_index(c)] == c,
{
    let d = full_deck();
    assert forall|c: Card| #[trigger] d[card_index(c)] == c by {
        let k = card_index(c);
        assert(k / 8 == suit_index(c.suit) && k % 8 == rank_index(c.rank));
    }
    assert forall|c: Card| d.contains(c) by {
        assert(d[card_index(c)] == c);
    }
    assert forall|i: int, j: int| 0 <= i < 32 && 0 <= j < 32 && i != j implies d[i] != d[j] by {
        assert(card_index(d[i]) == i);
        assert(card_index(d[j]) == j);
    }
}

/// Points of a concatenation are the sum of the points of its parts.
pub proof fn lemma_points_append(a: Seq<Card>, b: Seq<Card>)
    ensures
        card_points(a + b) == card_points(a) + card_points(b),
    decreases b.len(),
{
    if b.len() == 0 {
        assert(a + b =~= a);
    } else {
        lemma_points_append(a, b.drop_last());
        assert((a + b).drop_last() =~= a + b.drop_last());
    }
}

/// Taking one card out of a sequence takes its points out of the total.
pub proof fn lemma_points_remove(s: Seq<Card>, i: int)
    requires
        0 <= i < s.len(),
    ensures
        card_points(s) == card_points(s.remove(i)) + rank_points(s[i].rank),
{
    let pre = s.take(i);
    let post = s.skip(i + 1);
    assert(s =~= pre.push(s[i]) + post);
    assert(s.remove(i) =~= pre + post);
    lemma_points_append(pre.push(s[i]), post);
    lemma_points_append(pre, post);
    assert(pre.push(s[i]).drop_last() =~= pre);
}

/// Points depend only on which cards a sequence holds, not on their order.
pub proof fn lemma_points_permutation(a: Seq<Card>, b: Seq<Card>)
    requires
        a.to_multiset() == b.to_multiset(),
    ensures
        card_points(a) == card_points(b),
    decreases a.len(),
{
    a.to_multiset_ensures();
    b.to_multiset_ensures();
    if a.len() == 0 {
        assert(b.len() == 0);
    } else {
        let x = a.last();
        assert(a.to_multiset().count(x) > 0) by {
            assert(a.contains(x)) by {
                assert(a[a.len() - 1] == x);
            }
        }
        assert(b.contains(x));
        let j = choose|j: int| 0 <= j < b.len() && b[j] == x;
        assert(a.drop_last() =~= a.remove(a.len() - 1));
        assert(a.drop_last().to_multiset() == b.remove(j).to_multiset());
        lemma_points_permutation(a.drop_last(), b.remove(j));
        lemma_points_remove(b, j);
    }
}

/// The eight cards of one suit, in the order of a fresh deck.
pub open spec fn suit_block(s: Suit) -> Seq<Card> {
    Seq::new(8, |r: int| Card { suit: s, rank: rank_at(r) })
}

proof fn lemma_suit_block_points(s: Suit)
    ensures
        card_points(suit_block(s)) == 30,
{
    reveal_with_fuel(card_points, 9);
    let b = suit_block(s);
    assert(b.drop_last() =~= b.take(7));
    assert(b.take(7).drop_last() =~= b.take(6));
    assert(b.take(6).drop_last() =~= b.take(5));
    assert(b.take(5).drop_last() =~= b.take(4));
    assert(b.take(4).drop_last() =~= b.take(3));
    assert(b.take(3).drop_last() =~= b.take(2));
    assert(b.take(2).drop_last() =~= b.take(1));
    assert(b.take(1).drop_last() =~= b.take(0));
}

/// A full deck is worth 120 points.
pub proof fn lemma_full_deck_points()
    ensures
        card_points(full_deck()) == 120,
{
    let d = full_deck();
    let h = suit_block(Suit::Hearts);
    let di = suit_block(Suit::Diamonds);
    let c = suit_block(Suit::Clubs);
    let sp = suit_block(Suit::Spades);
    assert(d =~= h + di + c + sp);
    lemma_suit_block_points(Suit::Hearts);
    lemma_suit_block_points(Suit::Diamonds);
    lemma_suit_block_points(Suit::Clubs);
    lemma_suit_block_points(Suit::Spades);
    lemma_points_append(h, di);
    lemma_points_append(h + di, c);
    lemma_points_append(h + di + c, sp);
}

/// Whether a card belongs to the trump color: the trump suit and every Jack.
pub open spec fn is_trump(c: Card, trump: Suit) -> bool {
    c.suit == trump || c.rank == Rank::Jack
}

/// Order of the Jacks among themselves: Clubs, Spades, Hearts, Diamonds.
pub open spec fn jack_order(s: Suit) -> nat {
    match s {
        Suit::Diamonds => 0,
        Suit::Hearts => 1,
        Suit::Spades => 2,
        Suit::Clubs => 3,
    }
}

/// Strength of a card among the cards of a trick that follow the led color.
pub open spec fn strength(c: Card) -> nat {
    if c.rank == Rank::Jack {
        spec_normal_rank_value(c.rank) + jack_order(c.suit)
    } else {
        spec_normal_rank_value(c.rank)
    }
}

/// Led color of a trick of three cards: trump as soon as one card is trump,
/// else the suit of the first card.
pub open spec fn spec_trick_color(a: Card, b: Card, c: Card, trump: Suit) -> Suit {
    if is_trump(a, trump) || is_trump(b, trump) || is_trump(c, trump) {
        trump
    } else {
        a.suit
    }
}

/// Whether a card can take a trick whose led color is `color`.
pub open spec fn follows(c: Card, color: Suit) -> bool {
    c.suit == color || c.rank == Rank::Jack
}

pub open spec fn trick_card(a: Card, b: Card, c: Card, k: int) -> Card {
    if k == 0 {
        a
    } else if k == 1 {
        b
    } else {
        c
    }
}

/// Position `w` in the trick wins: it follows the led color, no following card
/// is stronger, and a later following card of equal strength takes precedence.
pub open spec fn wins_trick(a: Card, b: Card, c: Card, trump: Suit, w: int) -> bool {
    let color = spec_trick_color(a, b, c, trump);
    &&& 0 <= w < 3
    &&& follows(trick_card(a, b, c, w), color)
    &&& forall|k: int|
        0 <= k < 3 && follows(#[trigger] trick_card(a, b, c, k), color) ==> strength(
            trick_card(a, b, c, k),
        ) < strength(trick_card(a, b, c, w)) || (strength(trick_card(a, b, c, k)) == strength(
            trick_card(a, b, c, w),
        ) && k <= w)
}

/// Position in the trick of the card that takes it.
pub open spec fn trick_winner(a: Card, b: Card, c: Card, trump: Suit) -> int {
    let color = spec_trick_color(a, b, c, trump);
    let w1: int = if follows(b, color) && (!follows(a, color) || strength(b) >= strength(a)) {
        1
    } else {
        0
    };
    let s1 = if w1 == 1 {
        strength(b)
    } else {
        strength(a)
    };
    let found1 = follows(a, color) || follows(b, color);
    if follows(c, color) && (!found1 || strength(c) >= s1) {
        2
    } else {
        w1
    }
}

fn card_strength(c: &Card) -> (r: u32)
    ensures
        r == strength(*c),
{
    let base = normal_rank_value(&c.rank);
    match c.rank {
        Rank::Jack => {
            let order: u32 = match c.suit {
                Suit::Diamonds => 0,
                Suit::Hearts => 1,
                Suit::Spades => 2,
                Suit::Clubs => 3,
            };
            base + order
        },
        _ => base,
    }
}

fn card_is_trump(c: &Card, trump: &Suit) -> (r: bool)
    ensures
        r == is_trump(*c, *trump),
{
    c.suit == *trump || c.rank == Rank::Jack
}

/// Led color of a trick of three cards.
pub fn trick_color(first: &Card, second: &Card, third: &Card, trump: &Suit) -> (r: Suit)
    ensures
        r == spec_trick_color(*first, *second, *third, *trump),
{
    if card_is_trump(first, trump) || card_is_trump(second, trump) || card_is_trump(third, trump) {
        *trump
    } else {
        first.suit
    }
}

/// Position (0, 1 or 2) of the card that takes a trick, given the trump suit.
pub fn evaluate_round_winner(first: Card, second: Card, third: Card, trump: Suit) -> (r: usize)
    ensures
        wins_trick(first, second, third, trump, r as int),
        r == trick_winner(first, second, third, trump),
{
    let color = trick_color(&first, &second, &third, &trump);
    let f0 = first.suit == color || first.rank == Rank::Jack;
    let f1 = second.suit == color || second.rank == Rank::Jack;
    let f2 = third.suit == color || third.rank == Rank::Jack;
    let s0 = card_strength(&first);
    let s1 = card_strength(&second);
    let s2 = card_strength(&third);
    let mut best: usize = 0;
    let mut best_strength: u32 = s0;
    let mut found = f0;
    if f1 && (!found || s1 >= best_strength) {
        best = 1;
        best_strength = s1;
        found = true;
    }
    if f2 && (!found || s2 >= best_strength) {
        best = 2;
        best_strength = s2;
        found = true;
    }
    proof {
        assert(found) by {
            if is_trump(first, trump) || is_trump(second, trump) || is_trump(third, trump) {
                assert(color == trump);
            } else {
                assert(color == first.suit);
            }
        }
        let t0 = trick_card(first, second, third, 0);
        let t1 = trick_card(first, second, third, 1);
        let t2 = trick_card(first, second, third, 2);
        assert(t0 == first && t1 == second && t2 == third);
    }
    best
}

/// Seats in the order in which they play a trick led by `start`.
pub fn turn_order(start: usize) -> (r: Vec<usize>)
    ensures
        r@.len() == 3,
        forall|i: int| 0 <= i < 3 ==> r@[i] == (start + i) % 3,
{
    let s = start % 3;
    let mut r: Vec<usize> = Vec::new();
    r.push(s);
    r.push((s + 1) % 3);
    r.push((s + 2) % 3);
    r
}

/// Total points of a pile of cards.
pub fn evaluate_cards_value(cards: &Vec<Card>) -> (r: u32)
    requires
        card_points(cards@) <= u32::MAX,
    ensures
        r == card_points(cards@),
{
    let mut sum: u32 = 0;
    let mut i: usize = 0;
    while i < cards.len()
        invariant
            0 <= i <= cards@.len(),
            sum == card_points(cards@.take(i as int)),
            card_points(cards@) <= u32::MAX,
        decreases cards@.len() - i,
    {
        proof {
            assert(cards@.take(i + 1).drop_last() =~= cards@.take(i as int));
            lemma_points_append(cards@.take(i + 1), cards@.skip(i + 1));
            assert(cards@.take(i + 1) + cards@.skip(i + 1) =~= cards@);
        }
        sum = sum + cards[i].rank.value();
        i = i + 1;
    }
    assert(cards@.take(i as int) =~= cards@);
    sum
}

fn suit_of(i: usize) -> (s: Suit)
    requires
        i < 4,
    ensures
        s == suit_at(i as int),
{
    if i == 0 {
        Suit::Hearts
    } else if i == 1 {
        Suit::Diamonds
    } else if i == 2 {
        Suit::Clubs
    } else {
        Suit::Spades
    }
}

fn rank_of(i: usize) -> (r: Rank)
    requires
        i < 8,
    ensures
        r == rank_at(i as int),
{
    if i == 0 {
        Rank::Seven
    } else if i == 1 {
        Rank::Eight
    } else if i == 2 {
        Rank::Nine
    } else if i == 3 {
        Rank::Ten
    } else if i == 4 {
        Rank::Jack
    } else if i == 5 {
        Rank::Queen
    } else if i == 6 {
        Rank::King
    } else {
        Rank::Ace
    }
}

/// The unshuffled deck.
pub fn fresh_deck() -> (deck: Vec<Card>)
    ensures
        deck@ == full_deck(),
{
    let mut deck: Vec<Card> = Vec::new();
    let mut s: usize = 0;
    while s < 4
        invariant
            s <= 4,
            deck@ =~= full_deck().take(8 * s as int),
        decreases 4 - s,
    {
        let mut r: usize = 0;
        while r < 8
            invariant
                s < 4,
                r <= 8,
                deck@ =~= full_deck().take(8 * s + r),
            decreases 8 - r,
        {
            deck.push(Card { suit: suit_of(s), rank: rank_of(r) });
            proof {
                let k = 8 * s + r;
                assert(k / 8 == s as int && k % 8 == r as int);
                assert(full_deck().take(k + 1) =~= full_deck().take(k).push(full_deck()[k]));
            }
            r = r + 1;
        }
        s = s + 1;
    }
    deck
}

/// Relies on rand's `SliceRandom::shuffle` with the thread-local generator:
/// the slice is permuted in place.
#[verifier::external_body]
fn shuffle_cards(deck: &mut Vec<Card>)
    ensures
        final(deck)@.to_multiset() == old(deck)@.to_multiset(),
{
    rand::seq::SliceRandom::shuffle(deck.as_mut_slice(), &mut rand::rng());
}

/// A freshly shuffled deck: all 32 cards, each exactly once, in random order.
pub fn new_shuffled_deck() -> (deck: Vec<Card>)
    ensures
        is_complete_deck(deck@),
        deck@.to_multiset() == full_deck().to_multiset(),
{
    let mut deck = fresh_deck();
    shuffle_cards(&mut deck);
    proof {
        lemma_full_deck_complete();
        full_deck().lemma_multiset_has_no_duplicates();
        deck@.lemma_multiset_has_no_duplicates_conv();
        deck@.to_multiset_ensures();
        full_deck().to_multiset_ensures();
        assert forall|c: Card| deck@.contains(c) by {
            assert(full_deck().contains(c));
            assert(full_deck().to_multiset().count(c) > 0);
            assert(deck@.to_multiset().count(c) > 0);
        }
    }
    deck
}

} // verus!
