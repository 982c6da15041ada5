use vstd::prelude::*;

verus! {

/// The four suits of the deck.
#[derive(Debug, Clone, Copy, PartialEq, Eq, Structural, Hash)]
pub enum Suit {
    Hearts,
    Diamonds,
    Clubs,
    Spades,
}

/// The eight ranks of the deck, from the lowest to the highest.
#[derive(Debug, Clone, Copy, PartialEq, Eq, Structural, Hash)]
pub enum Rank {
    Seven,
    Eight,
    Nine,
    Ten,
    Jack,
    Queen,
    King,
    Ace,
}

/// One playing card.
#[derive(Debug, Clone, Copy, PartialEq, Eq, Structural, Hash)]
pub struct Card {
    pub suit: Suit,
    pub rank: Rank,
}

/// Notice that a player took a seat at the table.
#[derive(Debug, Clone, PartialEq, Eq)]
pub struct PlayerJoinMessage {
    pub id: u32,
    pub name: String,
}

/// Outcome of a completed round: the winning side (none on a tie) and the
/// point totals of both sides.
#[derive(Debug, Clone, PartialEq, Eq)]
pub struct GameWonMessage {
    pub id: Option<u32>,
    pub winner_points: u32,
    pub loser_points: u32,
}

/// Every event that travels between a client and the server.
#[derive(Debug, Clone, PartialEq, Eq)]
pub enum Message {
    Login(String),
    ConfirmJoin(u32),
    PlayerJoin(PlayerJoinMessage),
    PlayerLeave(u32),
    DrawCard(Card),
    PlayCard(Card),
    Hear,
    Say,
    SayFurther,
    Bid(i32),
    NewBid(i32),
    PlayNormalSolo,
    PlayNormalDuo,
    YourTurn,
    Trump(Suit),
    GameWon(GameWonMessage),
    KeepAlive(u64),
    BackToLobby,
    JoinGame,
    Disconnect,
}

/// Points a card of this rank is worth when a round is scored.
pub open spec fn rank_points(r: Rank) -> nat {
    match r {
        Rank::Seven => 0,
        Rank::Eight => 0,
        Rank::Nine => 0,
        Rank::Ten => 10,
        Rank::Jack => 2,
        Rank::Queen => 3,
        Rank::King => 4,
        Rank::Ace => 11,
    }
}

/// Strength of a non-Jack card inside its suit, and the sentinel of a Jack.
pub open spec fn spec_normal_rank_value(r: Rank) -> nat {
    match r {
        Rank::Seven => 0,
        Rank::Eight => 1,
        Rank::Nine => 2,
        Rank::Queen => 3,
        Rank::King => 4,
        Rank::Ten => 5,
        Rank::Ace => 6,
        Rank::Jack => JACK_STRENGTH as nat,
    }
}

/// Strength given to every Jack by `normal_rank_value`. It lies above every
/// other rank on purpose: a Jack is always trump and outranks all other cards,
/// so it is never looked up among the ordinary ranks.
pub const JACK_STRENGTH: u32 = 100;

impl Rank {
    /// Points this rank is worth when a round is scored.
    pub fn value(&self) -> (r: u32)
        ensures
            r == rank_points(*self),
    {
        match self {
            Rank::Seven => 0,
            Rank::Eight => 0,
            Rank::Nine => 0,
            Rank::Ten => 10,
            Rank::Jack => 2,
            Rank::Queen => 3,
            Rank::King => 4,
            Rank::Ace => 11,
        }
    }
}

/// Trick strength of a rank: Seven < Eight < Nine < Queen < King < Ten < Ace,
/// and `JACK_STRENGTH` for a Jack.
pub fn normal_rank_value(rank: &Rank) -> (r: u32)
    ensures
        r == spec_normal_rank_value(*rank),
{
    match rank {
        Rank::Seven => 0,
        Rank::Eight => 1,
        Rank::Nine => 2,
        Rank::Queen => 3,
        Rank::King => 4,
        Rank::Ten => 5,
        Rank::Ace => 6,
        Rank::Jack => JACK_STRENGTH,
    }
}

} // verus!
