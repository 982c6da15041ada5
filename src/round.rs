use vstd::prelude::*;
use crate::proto::{Card, Suit, Message, GameWonMessage};
use crate::deck::{
    card_points, full_deck, trick_winner,
    evaluate_round_winner, evaluate_cards_value, lemma_points_permutation, lemma_points_append,
    lemma_points_remove, lemma_full_deck_points,
};

verus! {

/// Stage of a round. A round only moves forward through these stages.
#[derive(Debug, Clone, Copy, PartialEq, Eq, Structural)]
pub enum Phase {
    Bidding,
    SkatExchange,
    TrumpDeclaration,
    TrickPlay,
    Finished,
    AllPassed,
}

/// A message the round sends to the peer at one seat (0, 1 or 2).
#[derive(Debug, Clone, PartialEq, Eq)]
pub struct Delivery {
    pub seat: usize,
    pub msg: Message,
}

/// State of one round of play between three seats.
#[derive(Debug)]
pub struct Round {
    pub hand_0: Vec<Card>,
    pub hand_1: Vec<Card>,
    pub hand_2: Vec<Card>,
    /// The two cards set aside at dealing, until the solo player takes them.
    pub skat: Vec<Card>,
    pub phase: Phase,
    /// Position in the bidding order (seat 1, seat 2, seat 0) of the seat now bidding.
    pub bidder: usize,
    pub high_bid: i32,
    /// The seat that made the last accepted bid.
    pub solo: Option<usize>,
    pub trump: Suit,
    /// The seat that opened the current trick.
    pub leader: usize,
    /// Cards of the current trick, in the order played from the leader on.
    pub trick: Vec<Card>,
    pub tricks_played: usize,
    /// Ids of the peers at seats 0, 1 and 2.
    pub seat_ids: [u32; 3],
    /// Cards won by the solo player, its two discarded cards included.
    pub solo_pile: Vec<Card>,
    /// Cards won by the two defenders.
    pub duo_pile: Vec<Card>,
}

/// Mathematical picture of a `Round`.
pub struct RoundView {
    pub hands: Seq<Seq<Card>>,
    pub skat: Seq<Card>,
    pub phase: Phase,
    pub bidder: usize,
    pub high_bid: i32,
    pub solo: Option<usize>,
    pub trump: Suit,
    pub leader: usize,
    pub trick: Seq<Card>,
    pub tricks_played: usize,
    pub seat_ids: Seq<u32>,
    pub solo_pile: Seq<Card>,
    pub duo_pile: Seq<Card>,
}

impl View for Round {
    type V = RoundView;

    open spec fn view(&self) -> RoundView {
        RoundView {
            hands: seq![self.hand_0@, self.hand_1@, self.hand_2@],
            skat: self.skat@,
            phase: self.phase,
            bidder: self.bidder,
            high_bid: self.high_bid,
            solo: self.solo,
            trump: self.trump,
            leader: self.leader,
            trick: self.trick@,
            tricks_played: self.tricks_played,
            seat_ids: self.seat_ids@,
            solo_pile: self.solo_pile@,
            duo_pile: self.duo_pile@,
        }
    }
}

/// Number of tricks in a round.
pub const TRICKS: usize = 10;

/// Seat that bids at a position of the bidding order: seat 1, seat 2, seat 0.
pub open spec fn bid_seat(pos: int) -> int {
    (pos + 1) % 3
}

/// The same message to each of the three seats, in seat order.
pub open spec fn broadcast(m: Message) -> Seq<Delivery> {
    seq![Delivery { seat: 0, msg: m }, Delivery { seat: 1, msg: m }, Delivery { seat: 2, msg: m }]
}

/// Tells each seat whether it plays solo or defends.
pub open spec fn announce(solo: usize) -> Seq<Delivery> {
    Seq::new(
        3,
        |i: int|
            Delivery {
                seat: i as usize,
                msg: if i == solo {
                    Message::PlayNormalSolo
                } else {
                    Message::PlayNormalDuo
                },
            },
    )
}

/// A hand with the first copy of `c` taken out.
pub open spec fn remove_card(h: Seq<Card>, c: Card) -> Seq<Card> {
    h.remove(h.index_of_first(c)->Some_0)
}

/// Outcome announced at the end of a round: the solo player (id `solo_id`)
/// wins with more points, the defenders (named by `duo_id`, the peer at the
/// seat after the solo seat) with fewer, nobody on a tie.
pub open spec fn round_result(solo_points: nat, duo_points: nat, solo_id: u32, duo_id: u32) -> GameWonMessage {
    if solo_points > duo_points {
        GameWonMessage {
            id: Some(solo_id),
            winner_points: solo_points as u32,
            loser_points: duo_points as u32,
        }
    } else if solo_points < duo_points {
        GameWonMessage {
            id: Some(duo_id),
            winner_points: duo_points as u32,
            loser_points: solo_points as u32,
        }
    } else {
        GameWonMessage { id: None, winner_points: 60, loser_points: 60 }
    }
}

/// The deal of a deck: card `k` goes to seat `k % 3` for the first 30 cards,
/// the last two form the skat; every seat hears of each of its cards, and the
/// bidding calls go out. `ids` are the ids of the peers at the seats.
pub open spec fn deal(deck: Seq<Card>, ids: Seq<u32>) -> (RoundView, Seq<Delivery>) {
    (
        RoundView {
            hands: Seq::new(3, |s: int| Seq::new(10, |r: int| deck[3 * r + s])),
            skat: seq![deck[30], deck[31]],
            phase: Phase::Bidding,
            bidder: 0,
            high_bid: 0,
            solo: None,
            trump: Suit::Clubs,
            leader: 0,
            trick: seq![],
            tricks_played: 0,
            seat_ids: ids,
            solo_pile: seq![],
            duo_pile: seq![],
        },
        Seq::new(30, |k: int| Delivery { seat: (k % 3) as usize, msg: Message::DrawCard(deck[k]) })
            + seq![
            Delivery { seat: 0, msg: Message::Hear },
            Delivery { seat: 1, msg: Message::Say },
            Delivery { seat: 2, msg: Message::SayFurther },
        ],
    )
}

/// What a message from a seat does to a round: the new state and the
/// messages sent. A message that is not the one the round waits for, from the
/// seat it waits for, changes nothing; so does a card the seat does not hold.
pub open spec fn step(v: RoundView, seat: usize, msg: Message) -> (RoundView, Seq<Delivery>) {
    match msg {
        Message::Bid(b) => {
            if v.phase == Phase::Bidding && seat == bid_seat(v.bidder as int) {
                if b != 0 {
                    (RoundView { high_bid: b, solo: Some(seat), ..v }, broadcast(Message::NewBid(b)))
                } else if v.bidder < 2 {
                    (RoundView { bidder: (v.bidder + 1) as usize, ..v }, seq![])
                } else if v.solo is None {
                    (RoundView { phase: Phase::AllPassed, ..v }, seq![])
                } else {
                    let s = v.solo->Some_0;
                    (
                        RoundView {
                            phase: Phase::SkatExchange,
                            hands: v.hands.update(s as int, v.hands[s as int].push(v.skat[1]).push(v.skat[0])),
                            skat: seq![],
                            ..v
                        },
                        announce(s) + seq![
                            Delivery { seat: s, msg: Message::DrawCard(v.skat[1]) },
                            Delivery { seat: s, msg: Message::DrawCard(v.skat[0]) },
                        ],
                    )
                }
            } else {
                (v, seq![])
            }
        },
        Message::PlayCard(c) => {
            if v.phase == Phase::SkatExchange && v.solo == Some(seat) && seat < 3
                && v.hands[seat as int].contains(c) {
                let pile = v.solo_pile.push(c);
                (
                    RoundView {
                        hands: v.hands.update(seat as int, remove_card(v.hands[seat as int], c)),
                        solo_pile: pile,
                        phase: if pile.len() == 2 {
                            Phase::TrumpDeclaration
                        } else {
                            Phase::SkatExchange
                        },
                        ..v
                    },
                    seq![],
                )
            } else if v.phase == Phase::TrickPlay && seat == (v.leader + v.trick.len()) % 3
                && v.hands[seat as int].contains(c) {
                let hands = v.hands.update(seat as int, remove_card(v.hands[seat as int], c));
                let trick = v.trick.push(c);
                if trick.len() < 3 {
                    (
                        RoundView { hands, trick, ..v },
                        seq![Delivery { seat: ((seat + 1) % 3) as usize, msg: Message::YourTurn }],
                    )
                } else {
                    let w = ((v.leader + trick_winner(trick[0], trick[1], trick[2], v.trump))
                        % 3) as usize;
                    let solo = v.solo->Some_0;
                    let sp = if w == solo {
                        v.solo_pile + trick
                    } else {
                        v.solo_pile
                    };
                    let dp = if w == solo {
                        v.duo_pile
                    } else {
                        v.duo_pile + trick
                    };
                    let played = (v.tricks_played + 1) as usize;
                    let next = RoundView {
                        hands,
                        trick: seq![],
                        solo_pile: sp,
                        duo_pile: dp,
                        leader: w,
                        tricks_played: played,
                        ..v
                    };
                    if played < TRICKS {
                        (next, seq![Delivery { seat: w, msg: Message::YourTurn }])
                    } else {
                        (
                            RoundView { phase: Phase::Finished, ..next },
                            broadcast(
                                Message::GameWon(
                                    round_result(
                                        card_points(sp),
                                        card_points(dp),
                                        v.seat_ids[solo as int],
                                        v.seat_ids[(solo + 1) % 3],
                                    ),
                                ),
                            ),
                        )
                    }
                }
            } else {
                (v, seq![])
            }
        },
        Message::Trump(t) => {
            if v.phase == Phase::TrumpDeclaration && v.solo == Some(seat) {
                (
                    RoundView { trump: t, phase: Phase::TrickPlay, leader: 0, ..v },
                    broadcast(Message::Trump(t)).push(Delivery { seat: 0, msg: Message::YourTurn }),
                )
            } else {
                (v, seq![])
            }
        },
        _ => (v, seq![]),
    }
}

/// The seat whose message the round waits for, if the round is still on.
pub open spec fn waiting_seat(v: RoundView) -> Option<usize> {
    match v.phase {
        Phase::Bidding => Some(bid_seat(v.bidder as int) as usize),
        Phase::SkatExchange | Phase::TrumpDeclaration => v.solo,
        Phase::TrickPlay => Some(((v.leader + v.trick.len()) % 3) as usize),
        _ => None,
    }
}

/// The move made for a seat that has nothing else to offer: a pass while
/// bidding, Clubs as trump, otherwise the first card of its hand.
pub open spec fn default_move(v: RoundView, seat: usize) -> Message {
    match v.phase {
        Phase::Bidding => Message::Bid(0),
        Phase::TrumpDeclaration => Message::Trump(Suit::Clubs),
        _ => if seat < 3 && v.hands[seat as int].len() > 0 {
            Message::PlayCard(v.hands[seat as int][0])
        } else {
            Message::Bid(0)
        },
    }
}

/// The same round with other hands.
pub open spec fn with_hands(v: RoundView, hands: Seq<Seq<Card>>) -> RoundView {
    RoundView { hands, ..v }
}

/// Points of every card the round holds, wherever it lies.
pub open spec fn total_points(v: RoundView) -> nat {
    card_points(v.hands[0]) + card_points(v.hands[1]) + card_points(v.hands[2]) + card_points(
        v.skat,
    ) + card_points(v.trick) + card_points(v.solo_pile) + card_points(v.duo_pile)
}

/// Whether the seat has already played to the current trick.
pub open spec fn has_played(v: RoundView, seat: int) -> bool {
    (seat - v.leader + 3) % 3 < v.trick.len()
}

/// Well-formedness of a round: the 120 points of the deck are all there, and
/// the piles have the sizes that the stage implies.
pub open spec fn round_wf(v: RoundView) -> bool {
    &&& v.hands.len() == 3
    &&& v.seat_ids.len() == 3
    &&& v.leader < 3
    &&& v.bidder < 3
    &&& v.trick.len() < 3
    &&& total_points(v) == 120
    &&& (v.solo matches Some(s) ==> s < 3)
    &&& match v.phase {
        Phase::Bidding | Phase::AllPassed => {
            &&& v.skat.len() == 2
            &&& forall|s: int| 0 <= s < 3 ==> #[trigger] v.hands[s].len() == 10
            &&& v.trick.len() == 0
            &&& v.solo_pile.len() == 0
            &&& v.duo_pile.len() == 0
            &&& v.tricks_played == 0
            &&& (v.phase == Phase::AllPassed ==> v.solo is None)
        },
        Phase::SkatExchange | Phase::TrumpDeclaration => {
            &&& v.solo is Some
            &&& v.skat.len() == 0
            &&& v.solo_pile.len() <= 2
            &&& (v.phase == Phase::SkatExchange <==> v.solo_pile.len() < 2)
            &&& forall|s: int|
                0 <= s < 3 ==> #[trigger] v.hands[s].len() == if s == v.solo->Some_0 {
                    12 - v.solo_pile.len()
                } else {
                    10
                }
            &&& v.trick.len() == 0
            &&& v.duo_pile.len() == 0
            &&& v.tricks_played == 0
        },
        Phase::TrickPlay | Phase::Finished => {
            &&& v.solo is Some
            &&& v.skat.len() == 0
            &&& v.tricks_played <= TRICKS
            &&& (v.phase == Phase::Finished <==> v.tricks_played == TRICKS)
            &&& forall|s: int|
                0 <= s < 3 ==> #[trigger] v.hands[s].len() == TRICKS - v.tricks_played - if has_played(
                    v,
                    s,
                ) {
                    1int
                } else {
                    0
                }
        },
    }
}

/// Adding a card to a pile adds its points.
pub proof fn lemma_points_push(s: Seq<Card>, c: Card)
    ensures
        card_points(s.push(c)) == card_points(s) + crate::proto::rank_points(c.rank),
{
    assert(s.push(c).drop_last() =~= s);
}

/// Scoring is conservative: once all ten tricks are played, the solo pile
/// (with the two discarded cards) and the defenders' pile together hold the
/// 120 points of the deck, and so does the announced result.
pub proof fn lemma_finished_round_points(v: RoundView)
    requires
        round_wf(v),
        v.phase == Phase::Finished,
    ensures
        card_points(v.solo_pile) + card_points(v.duo_pile) == 120,
        round_result(card_points(v.solo_pile), card_points(v.duo_pile), v.seat_ids[v.solo->Some_0 as int], v.seat_ids[(v.solo->Some_0 + 1) % 3]).winner_points
            + round_result(card_points(v.solo_pile), card_points(v.duo_pile), v.seat_ids[v.solo->Some_0 as int], v.seat_ids[(v.solo->Some_0 + 1) % 3]).loser_points
            == 120,
{
    assert(v.hands[0].len() == 0);
    assert(v.hands[1].len() == 0);
    assert(v.hands[2].len() == 0);
}

/// The cards of the first `r` rounds of a deal, seat by seat.
pub open spec fn dealt_prefix(deck: Seq<Card>, r: int) -> Seq<Card> {
    Seq::new(r as nat, |j: int| deck[3 * j]) + Seq::new(r as nat, |j: int| deck[3 * j + 1]) + Seq::new(
        r as nat,
        |j: int| deck[3 * j + 2],
    )
}

proof fn lemma_dealt_prefix(deck: Seq<Card>, r: int)
    requires
        0 <= r <= 10,
        deck.len() == 32,
    ensures
        dealt_prefix(deck, r).to_multiset() == deck.take(3 * r).to_multiset(),
    decreases r,
{
    broadcast use vstd::multiset::group_multiset_axioms, vstd::seq_lib::group_to_multiset_ensures;

    if r == 0 {
        assert(dealt_prefix(deck, 0) =~= Seq::<Card>::empty());
        assert(deck.take(0) =~= Seq::<Card>::empty());
    } else {
        lemma_dealt_prefix(deck, r - 1);
        let q = r - 1;
        let a = Seq::new(q as nat, |j: int| deck[3 * j]);
        let b = Seq::new(q as nat, |j: int| deck[3 * j + 1]);
        let c = Seq::new(q as nat, |j: int| deck[3 * j + 2]);
        let x = deck[3 * q];
        let y = deck[3 * q + 1];
        let z = deck[3 * q + 2];
        assert(Seq::new(r as nat, |j: int| deck[3 * j]) =~= a.push(x));
        assert(Seq::new(r as nat, |j: int| deck[3 * j + 1]) =~= b.push(y));
        assert(Seq::new(r as nat, |j: int| deck[3 * j + 2]) =~= c.push(z));
        assert(deck.take(3 * r) =~= deck.take(3 * q).push(x).push(y).push(z));
        vstd::seq_lib::lemma_multiset_commutative(a, b);
        vstd::seq_lib::lemma_multiset_commutative(a + b, c);
        vstd::seq_lib::lemma_multiset_commutative(a.push(x), b.push(y));
        vstd::seq_lib::lemma_multiset_commutative(a.push(x) + b.push(y), c.push(z));
        assert(dealt_prefix(deck, r).to_multiset() =~= deck.take(3 * r).to_multiset());
    }
}

/// Dealing a complete deck hands out every card exactly once: the three hands
/// and the skat together hold the 32 cards, with no card twice.
pub proof fn lemma_deal_complete(deck: Seq<Card>, ids: Seq<u32>)
    requires
        deck.to_multiset() == full_deck().to_multiset(),
    ensures
        ({
            let v = deal(deck, ids).0;
            let dealt = v.hands[0] + v.hands[1] + v.hands[2] + v.skat;
            &&& dealt.to_multiset() == full_deck().to_multiset()
            &&& crate::deck::is_complete_deck(dealt)
        }),
{
    broadcast use vstd::multiset::group_multiset_axioms, vstd::seq_lib::group_to_multiset_ensures;

    deck.to_multiset_ensures();
    full_deck().to_multiset_ensures();
    let v = deal(deck, ids).0;
    lemma_dealt_prefix(deck, 10);
    assert(v.hands[0] + v.hands[1] + v.hands[2] =~= dealt_prefix(deck, 10));
    let dealt = v.hands[0] + v.hands[1] + v.hands[2] + v.skat;
    assert(dealt =~= dealt_prefix(deck, 10) + v.skat);
    assert(deck =~= deck.take(30) + v.skat);
    vstd::seq_lib::lemma_multiset_commutative(dealt_prefix(deck, 10), v.skat);
    vstd::seq_lib::lemma_multiset_commutative(deck.take(30), v.skat);
    assert(dealt.to_multiset() == deck.to_multiset());
    crate::deck::lemma_full_deck_complete();
    full_deck().lemma_multiset_has_no_duplicates();
    dealt.lemma_multiset_has_no_duplicates_conv();
    dealt.to_multiset_ensures();
    assert forall|c: Card| dealt.contains(c) by {
        assert(full_deck().contains(c));
        assert(full_deck().to_multiset().count(c) > 0);
        assert(dealt.to_multiset().count(c) > 0);
    }
}

/// Takes the first copy of `c` out of a hand, if the hand holds one.
fn take_card(hand: &mut Vec<Card>, c: Card) -> (found: bool)
    ensures
        found == old(hand)@.contains(c),
        found ==> final(hand)@ == remove_card(old(hand)@, c),
        !found ==> final(hand)@ == old(hand)@,
{
    let mut i: usize = 0;
    while i < hand.len()
        invariant
            i <= hand@.len(),
            hand@ == old(hand)@,
            forall|j: int| 0 <= j < i ==> hand@[j] != c,
        decreases hand@.len() - i,
    {
        if hand[i] == c {
            proof {
                hand@.index_of_first_ensures(c);
                let k = hand@.index_of_first(c)->Some_0;
                assert(k == i);
            }
            hand.remove(i);
            return true;
        }
        i = i + 1;
    }
    false
}

fn new_bid_message(b: i32) -> (m: Message)
    ensures
        m == Message::NewBid(b),
{
    Message::NewBid(b)
}

fn won_message(solo_points: u32, duo_points: u32, solo_id: u32, duo_id: u32) -> (m: Message)
    requires
        solo_points + duo_points == 120,
    ensures
        m == Message::GameWon(round_result(solo_points as nat, duo_points as nat, solo_id, duo_id)),
{
    if solo_points > duo_points {
        Message::GameWon(
            GameWonMessage { id: Some(solo_id), winner_points: solo_points, loser_points: duo_points },
        )
    } else if solo_points < duo_points {
        Message::GameWon(
            GameWonMessage {
                id: Some(duo_id),
                winner_points: duo_points,
                loser_points: solo_points,
            },
        )
    } else {
        Message::GameWon(GameWonMessage { id: None, winner_points: 60, loser_points: 60 })
    }
}

impl Round {
    /// Deals a shuffled deck: ten cards to each seat, round by round, and two
    /// to the skat; then calls the three seats to the bidding. `seat_ids` are
    /// the ids of the peers at seats 0, 1 and 2.
    pub fn new(deck: &Vec<Card>, seat_ids: [u32; 3]) -> (r: (Round, Vec<Delivery>))
        requires
            deck@.to_multiset() == full_deck().to_multiset(),
        ensures
            r.0@ == deal(deck@, seat_ids@).0,
            r.1@ == deal(deck@, seat_ids@).1,
            round_wf(r.0@),
    {
        proof {
            deck@.to_multiset_ensures();
            full_deck().to_multiset_ensures();
        }
        let ghost d = deck@;
        let mut hand_0: Vec<Card> = Vec::new();
        let mut hand_1: Vec<Card> = Vec::new();
        let mut hand_2: Vec<Card> = Vec::new();
        let mut out: Vec<Delivery> = Vec::new();
        let mut r: usize = 0;
        while r < TRICKS
            invariant
                d == deck@,
                d.len() == 32,
                r <= 10,
                hand_0@ =~= Seq::new(r as nat, |j: int| d[3 * j]),
                hand_1@ =~= Seq::new(r as nat, |j: int| d[3 * j + 1]),
                hand_2@ =~= Seq::new(r as nat, |j: int| d[3 * j + 2]),
                out@ =~= Seq::new(
                    3 * r as nat,
                    |k: int| Delivery { seat: (k % 3) as usize, msg: Message::DrawCard(d[k]) },
                ),
                card_points(hand_0@) + card_points(hand_1@) + card_points(hand_2@) == card_points(
                    d.take(3 * r as int),
                ),
            decreases 10 - r,
        {
            let k = 3 * r;
            let c0 = deck[k];
            let c1 = deck[k + 1];
            let c2 = deck[k + 2];
            proof {
                lemma_points_push(hand_0@, c0);
                lemma_points_push(hand_1@, c1);
                lemma_points_push(hand_2@, c2);
                let t = d.take(k as int);
                assert(d.take(k + 1) =~= t.push(c0));
                assert(d.take(k + 2) =~= t.push(c0).push(c1));
                assert(d.take(k + 3) =~= t.push(c0).push(c1).push(c2));
                lemma_points_push(t, c0);
                lemma_points_push(t.push(c0), c1);
                lemma_points_push(t.push(c0).push(c1), c2);
            }
            hand_0.push(c0);
            hand_1.push(c1);
            hand_2.push(c2);
            out.push(Delivery { seat: 0, msg: Message::DrawCard(c0) });
            out.push(Delivery { seat: 1, msg: Message::DrawCard(c1) });
            out.push(Delivery { seat: 2, msg: Message::DrawCard(c2) });
            proof {
                assert((k as int) % 3 == 0);
                assert((k as int + 1) % 3 == 1);
                assert((k as int + 2) % 3 == 2);
            }
            r = r + 1;
        }
        let s0 = deck[30];
        let s1 = deck[31];
        let mut skat: Vec<Card> = Vec::new();
        skat.push(s0);
        skat.push(s1);
        out.push(Delivery { seat: 0, msg: Message::Hear });
        out.push(Delivery { seat: 1, msg: Message::Say });
        out.push(Delivery { seat: 2, msg: Message::SayFurther });
        let round = Round {
            hand_0,
            hand_1,
            hand_2,
            skat,
            phase: Phase::Bidding,
            bidder: 0,
            high_bid: 0,
            solo: None,
            trump: Suit::Clubs,
            leader: 0,
            trick: Vec::new(),
            tricks_played: 0,
            seat_ids,
            solo_pile: Vec::new(),
            duo_pile: Vec::new(),
        };
        proof {
            let (v, o) = deal(d, seat_ids@);
            assert(round@.hands[0] =~= v.hands[0]);
            assert(round@.hands[1] =~= v.hands[1]);
            assert(round@.hands[2] =~= v.hands[2]);
            assert(round@.hands =~= v.hands);
            assert(round@.skat =~= v.skat);
            assert(round@.trick =~= v.trick);
            assert(round@.solo_pile =~= v.solo_pile);
            assert(round@.duo_pile =~= v.duo_pile);
            assert(out@ =~= o);
            lemma_points_push(d.take(30), s0);
            lemma_points_push(d.take(30).push(s0), s1);
            assert(d.take(30).push(s0).push(s1) =~= d);
            lemma_points_push(seq![], s0);
            lemma_points_push(seq![s0], s1);
            assert(seq![s0].push(s1) =~= skat@);
            assert(Seq::<Card>::empty().push(s0) =~= seq![s0]);
            lemma_points_permutation(d, full_deck());
            lemma_full_deck_points();
            reveal_with_fuel(card_points, 1);
        }
        (round, out)
    }

    fn take_from_hand(&mut self, seat: usize, c: Card) -> (found: bool)
        requires
            seat < 3,
        ensures
            found == old(self)@.hands[seat as int].contains(c),
            final(self)@ == with_hands(
                old(self)@,
                if found {
                    old(self)@.hands.update(seat as int, remove_card(old(self)@.hands[seat as int], c))
                } else {
                    old(self)@.hands
                },
            ),
    {
        let found = if seat == 0 {
            take_card(&mut self.hand_0, c)
        } else if seat == 1 {
            take_card(&mut self.hand_1, c)
        } else {
            take_card(&mut self.hand_2, c)
        };
        proof {
            let v = old(self)@;
            let h = if found {
                v.hands.update(seat as int, remove_card(v.hands[seat as int], c))
            } else {
                v.hands
            };
            assert(self@.hands =~= h);
        }
        found
    }

    fn bid(&mut self, seat: usize, b: i32) -> (out: Vec<Delivery>)
        requires
            round_wf(old(self)@),
            old(self).phase == Phase::Bidding,
            seat as int == bid_seat(old(self).bidder as int),
        ensures
            round_wf(final(self)@),
            (final(self)@, out@) == step(old(self)@, seat, Message::Bid(b)),
    {
        let ghost v = self@;
        let mut out: Vec<Delivery> = Vec::new();
        if b != 0 {
            self.high_bid = b;
            self.solo = Some(seat);
            out.push(Delivery { seat: 0, msg: new_bid_message(b) });
            out.push(Delivery { seat: 1, msg: new_bid_message(b) });
            out.push(Delivery { seat: 2, msg: new_bid_message(b) });
            proof {
                assert(out@ =~= broadcast(Message::NewBid(b)));
                assert(self@.hands =~= v.hands);
            }
        } else if self.bidder < 2 {
            self.bidder = self.bidder + 1;
            proof {
                assert(out@ =~= seq![]);
                assert(self@.hands =~= v.hands);
            }
        } else {
            match self.solo {
                None => {
                    self.phase = Phase::AllPassed;
                    proof {
                        assert(out@ =~= seq![]);
                        assert(self@.hands =~= v.hands);
                    }
                },
                Some(s) => {
                    let c0 = self.skat[0];
                    let c1 = self.skat[1];
                    proof {
                        lemma_points_push(seq![], c0);
                        lemma_points_push(seq![c0], c1);
                        assert(seq![c0].push(c1) =~= v.skat);
                        assert(Seq::<Card>::empty().push(c0) =~= seq![c0]);
                        reveal_with_fuel(card_points, 1);
                        lemma_points_push(v.hands[s as int], c1);
                        lemma_points_push(v.hands[s as int].push(c1), c0);
                    }
                    if s == 0 {
                        self.hand_0.push(c1);
                        self.hand_0.push(c0);
                    } else if s == 1 {
                        self.hand_1.push(c1);
                        self.hand_1.push(c0);
                    } else {
                        self.hand_2.push(c1);
                        self.hand_2.push(c0);
                    }
                    self.skat = Vec::new();
                    self.phase = Phase::SkatExchange;
                    let mut i: usize = 0;
                    while i < 3
                        invariant
                            i <= 3,
                            s < 3,
                            out@ =~= announce(s).take(i as int),
                        decreases 3 - i,
                    {
                        if i == s {
                            out.push(Delivery { seat: i, msg: Message::PlayNormalSolo });
                        } else {
                            out.push(Delivery { seat: i, msg: Message::PlayNormalDuo });
                        }
                        proof {
                            assert(announce(s).take(i + 1) =~= announce(s).take(i as int).push(
                                announce(s)[i as int],
                            ));
                        }
                        i = i + 1;
                    }
                    out.push(Delivery { seat: s, msg: Message::DrawCard(c1) });
                    out.push(Delivery { seat: s, msg: Message::DrawCard(c0) });
                    proof {
                        assert(announce(s).take(3) =~= announce(s));
                        let (nv, no) = step(v, seat, Message::Bid(b));
                        assert(out@ =~= no);
                        assert(self@.hands =~= nv.hands);
                        assert(self@.skat =~= nv.skat);
                    }
                },
            }
        }
        out
    }

    fn discard(&mut self, seat: usize, c: Card) -> (out: Vec<Delivery>)
        requires
            round_wf(old(self)@),
            old(self).phase == Phase::SkatExchange,
            old(self).solo == Some(seat),
            seat < 3,
        ensures
            round_wf(final(self)@),
            (final(self)@, out@) == step(old(self)@, seat, Message::PlayCard(c)),
    {
        let ghost v = self@;
        let found = self.take_from_hand(seat, c);
        if found {
            proof {
                let h = v.hands[seat as int];
                h.index_of_first_ensures(c);
                lemma_points_remove(h, h.index_of_first(c)->Some_0);
                lemma_points_push(v.solo_pile, c);
            }
            self.solo_pile.push(c);
            if self.solo_pile.len() == 2 {
                self.phase = Phase::TrumpDeclaration;
            }
        }
        let out: Vec<Delivery> = Vec::new();
        proof {
            assert(out@ =~= seq![]);
        }
        out
    }

    fn declare_trump(&mut self, seat: usize, t: Suit) -> (out: Vec<Delivery>)
        requires
            round_wf(old(self)@),
            old(self).phase == Phase::TrumpDeclaration,
            old(self).solo == Some(seat),
        ensures
            round_wf(final(self)@),
            (final(self)@, out@) == step(old(self)@, seat, Message::Trump(t)),
    {
        let ghost v = self@;
        self.trump = t;
        self.phase = Phase::TrickPlay;
        self.leader = 0;
        let mut out: Vec<Delivery> = Vec::new();
        out.push(Delivery { seat: 0, msg: Message::Trump(t) });
        out.push(Delivery { seat: 1, msg: Message::Trump(t) });
        out.push(Delivery { seat: 2, msg: Message::Trump(t) });
        out.push(Delivery { seat: 0, msg: Message::YourTurn });
        proof {
            assert(out@ =~= broadcast(Message::Trump(t)).push(Delivery { seat: 0, msg: Message::YourTurn }));
            assert(self@.hands =~= v.hands);
            assert forall|s: int| 0 <= s < 3 implies #[trigger] self@.hands[s].len() == TRICKS
                - self@.tricks_played - if has_played(self@, s) {
                1int
            } else {
                0
            } by {
                assert(v.hands[s].len() == 10);
            }
        }
        out
    }

    fn play(&mut self, seat: usize, c: Card) -> (out: Vec<Delivery>)
        requires
            round_wf(old(self)@),
            old(self).phase == Phase::TrickPlay,
            seat as int == (old(self).leader + old(self).trick@.len()) % 3,
        ensures
            round_wf(final(self)@),
            (final(self)@, out@) == step(old(self)@, seat, Message::PlayCard(c)),
    {
        let ghost v = self@;
        let mut out: Vec<Delivery> = Vec::new();
        let found = self.take_from_hand(seat, c);
        if !found {
            proof {
                assert(out@ =~= seq![]);
            }
            return out;
        }
        proof {
            let h = v.hands[seat as int];
            h.index_of_first_ensures(c);
            lemma_points_remove(h, h.index_of_first(c)->Some_0);
            lemma_points_push(v.trick, c);
        }
        self.trick.push(c);
        let ghost mid = self@;
        proof {
            assert forall|s: int| 0 <= s < 3 implies #[trigger] mid.hands[s].len() == TRICKS
                - mid.tricks_played - if has_played(mid, s) {
                1int
            } else {
                0
            } by {
                assert(has_played(mid, s) == (has_played(v, s) || s == seat));
            }
            if mid.trick.len() == 3 {
                assert forall|s: int| 0 <= s < 3 implies has_played(mid, s) by {}
            }
        }
        if self.trick.len() < 3 {
            out.push(Delivery { seat: (seat + 1) % 3, msg: Message::YourTurn });
            proof {
                let (nv, no) = step(v, seat, Message::PlayCard(c));
                assert(out@ =~= no);
                assert(self@.hands =~= nv.hands);
                assert(self@.trick =~= nv.trick);
            }
            return out;
        }
        self.complete_trick(Ghost(v), Ghost(seat), Ghost(c))
    }

    /// Settles a trick once its third card lies on the table.
    #[verifier::rlimit(40)]
    fn complete_trick(&mut self, Ghost(v): Ghost<RoundView>, Ghost(seat): Ghost<usize>, Ghost(c): Ghost<Card>) -> (out: Vec<Delivery>)
        requires
            round_wf(v),
            v.phase == Phase::TrickPlay,
            seat as int == (v.leader + v.trick.len()) % 3,
            v.hands[seat as int].contains(c),
            v.trick.len() == 2,
            old(self)@ == (RoundView {
                hands: v.hands.update(seat as int, remove_card(v.hands[seat as int], c)),
                trick: v.trick.push(c),
                ..v
            }),
            total_points(old(self)@) == 120,
            forall|s: int| 0 <= s < 3 ==> #[trigger] old(self)@.hands[s].len() == TRICKS
                - v.tricks_played - 1,
        ensures
            round_wf(final(self)@),
            (final(self)@, out@) == step(v, seat, Message::PlayCard(c)),
    {
        let ghost mid = self@;
        let mut out: Vec<Delivery> = Vec::new();
        let t0 = self.trick[0];
        let t1 = self.trick[1];
        let t2 = self.trick[2];
        let pos = evaluate_round_winner(t0, t1, t2, self.trump);
        let w = (self.leader + pos) % 3;
        let solo = match self.solo {
            Some(s) => s,
            None => 0,
        };
        proof {
            assert(mid.trick =~= seq![t0, t1, t2]);
            lemma_points_append(v.solo_pile, mid.trick);
            lemma_points_append(v.duo_pile, mid.trick);
        }
        if w == solo {
            self.solo_pile.push(t0);
            self.solo_pile.push(t1);
            self.solo_pile.push(t2);
        } else {
            self.duo_pile.push(t0);
            self.duo_pile.push(t1);
            self.duo_pile.push(t2);
        }
        self.trick = Vec::new();
        self.tricks_played = self.tricks_played + 1;
        self.leader = w;
        let ghost nv = step(v, seat, Message::PlayCard(c)).0;
        proof {
            assert(self@.solo_pile =~= nv.solo_pile);
            assert(self@.duo_pile =~= nv.duo_pile);
            assert(self@.trick =~= nv.trick);
            assert(self@.hands =~= nv.hands);
            assert forall|s: int| 0 <= s < 3 implies #[trigger] self@.hands[s].len() == TRICKS
                - self@.tricks_played - if has_played(self@, s) {
                1int
            } else {
                0
            } by {
                assert(mid.hands[s].len() == TRICKS - v.tricks_played - 1);
            }
            reveal_with_fuel(card_points, 1);
        }
        if self.tricks_played < TRICKS {
            out.push(Delivery { seat: w, msg: Message::YourTurn });
            proof {
                let (nv2, no) = step(v, seat, Message::PlayCard(c));
                assert(out@ =~= no);
            }
        } else {
            self.phase = Phase::Finished;
            proof {
                assert(self@.hands[0].len() == 0);
                assert(self@.hands[1].len() == 0);
                assert(self@.hands[2].len() == 0);
            }
            let sp = evaluate_cards_value(&self.solo_pile);
            let dp = evaluate_cards_value(&self.duo_pile);
            let solo_id = self.seat_ids[solo];
            let duo_id = self.seat_ids[(solo + 1) % 3];
            out.push(Delivery { seat: 0, msg: won_message(sp, dp, solo_id, duo_id) });
            out.push(Delivery { seat: 1, msg: won_message(sp, dp, solo_id, duo_id) });
            out.push(Delivery { seat: 2, msg: won_message(sp, dp, solo_id, duo_id) });
            proof {
                let (nv2, no) = step(v, seat, Message::PlayCard(c));
                assert(out@ =~= no);
            }
        }
        out
    }

    /// The seat whose message the round waits for, if the round is still on.
    pub fn waiting_for(&self) -> (r: Option<usize>)
        requires
            round_wf(self@),
        ensures
            r == waiting_seat(self@),
    {
        match self.phase {
            Phase::Bidding => Some((self.bidder + 1) % 3),
            Phase::SkatExchange | Phase::TrumpDeclaration => self.solo,
            Phase::TrickPlay => Some((self.leader + self.trick.len()) % 3),
            _ => None,
        }
    }

    /// Whether the round has come to an end, played out or passed by all.
    pub fn is_over(&self) -> (r: bool)
        ensures
            r == (self.phase == Phase::Finished || self.phase == Phase::AllPassed),
    {
        match self.phase {
            Phase::Finished | Phase::AllPassed => true,
            _ => false,
        }
    }

    /// The move made for a seat that has nothing else to offer.
    pub fn default_move(&self, seat: usize) -> (m: Message)
        ensures
            m == default_move(self@, seat),
    {
        match self.phase {
            Phase::Bidding => Message::Bid(0),
            Phase::TrumpDeclaration => Message::Trump(Suit::Clubs),
            _ => {
                let h = if seat == 0 {
                    &self.hand_0
                } else if seat == 1 {
                    &self.hand_1
                } else {
                    &self.hand_2
                };
                if seat < 3 && h.len() > 0 {
                    Message::PlayCard(h[0])
                } else {
                    Message::Bid(0)
                }
            },
        }
    }

    /// Takes one message from the peer at a seat and advances the round as
    /// `step` says; returns the messages to send.
    pub fn handle(&mut self, seat: usize, msg: Message) -> (out: Vec<Delivery>)
        requires
            round_wf(old(self)@),
        ensures
            round_wf(final(self)@),
            (final(self)@, out@) == step(old(self)@, seat, msg),
    {
        let is_solo = match self.solo {
            Some(s) => s == seat,
            None => false,
        };
        match msg {
            Message::Bid(b) => {
                if self.phase == Phase::Bidding && seat == (self.bidder + 1) % 3 {
                    self.bid(seat, b)
                } else {
                    let out: Vec<Delivery> = Vec::new();
                    proof {
                        assert(out@ =~= seq![]);
                    }
                    out
                }
            },
            Message::PlayCard(c) => {
                if self.phase == Phase::SkatExchange && is_solo && seat < 3 {
                    self.discard(seat, c)
                } else if self.phase == Phase::TrickPlay && seat == (self.leader + self.trick.len())
                    % 3 {
                    self.play(seat, c)
                } else {
                    let out: Vec<Delivery> = Vec::new();
                    proof {
                        assert(out@ =~= seq![]);
                    }
                    out
                }
            },
            Message::Trump(t) => {
                if self.phase == Phase::TrumpDeclaration && is_solo {
                    self.declare_trump(seat, t)
                } else {
                    let out: Vec<Delivery> = Vec::new();
                    proof {
                        assert(out@ =~= seq![]);
                    }
                    out
                }
            },
            _ => {
                let out: Vec<Delivery> = Vec::new();
                proof {
                    assert(out@ =~= seq![]);
                }
                out
            },
        }
    }
}

} // verus!
