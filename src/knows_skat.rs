use vstd::prelude::*;
use crate::proto::{Card, Suit, Rank, Message, PlayerJoinMessage, GameWonMessage};

verus! {

/// A message addressed to the peer with a given id.
#[derive(Debug, Clone, PartialEq, Eq)]
pub struct Outgoing {
    pub to: u32,
    pub msg: Message,
}

/// A networked player as the lobby knows it: its id and its display name.
/// Messages for it go out over its connection.
#[derive(Debug)]
pub struct Player {
    pub id: u32,
    pub name: String,
}

/// A scripted bot that plays from a fixed queue of moves and hears nothing.
#[derive(Debug)]
pub struct NPC {
    pub id: u32,
    pub name: String,
    pub msg_stack: Vec<Message>,
}

/// A peer able to sit at a table: a networked player or a bot.
#[derive(Debug)]
pub enum Peer {
    Human(Player),
    Bot(NPC),
}

/// Mathematical picture of a peer: id, name, whether messages reach a remote
/// party, and the moves it still has queued.
pub struct PeerView {
    pub id: u32,
    pub name: String,
    pub remote: bool,
    pub script: Seq<Message>,
}

impl View for Peer {
    type V = PeerView;

    open spec fn view(&self) -> PeerView {
        match self {
            Peer::Human(p) => PeerView { id: p.id, name: p.name, remote: true, script: seq![] },
            Peer::Bot(n) => PeerView { id: n.id, name: n.name, remote: false, script: n.msg_stack@ },
        }
    }
}

/// The moves every bot starts with: the four Aces, Spades first.
pub open spec fn npc_script() -> Seq<Message> {
    seq![
        Message::PlayCard(Card { suit: Suit::Spades, rank: Rank::Ace }),
        Message::PlayCard(Card { suit: Suit::Diamonds, rank: Rank::Ace }),
        Message::PlayCard(Card { suit: Suit::Clubs, rank: Rank::Ace }),
        Message::PlayCard(Card { suit: Suit::Hearts, rank: Rank::Ace }),
    ]
}

/// What a peer's next scripted move is, and the peer after giving it.
pub open spec fn pop_script(p: PeerView) -> (PeerView, Option<Message>) {
    if p.script.len() > 0 {
        (PeerView { script: p.script.drop_first(), ..p }, Some(p.script[0]))
    } else {
        (p, None)
    }
}

/// A message to the peer, or nothing for a bot.
pub open spec fn deliver(p: PeerView, m: Message) -> Seq<Outgoing> {
    if p.remote {
        seq![Outgoing { to: p.id, msg: m }]
    } else {
        seq![]
    }
}

/// A copy of a message, field for field.
pub fn copy_message(m: &Message) -> (r: Message)
    ensures
        r == *m,
{
    match m {
        Message::Login(s) => Message::Login(s.clone()),
        Message::ConfirmJoin(i) => Message::ConfirmJoin(*i),
        Message::PlayerJoin(j) => Message::PlayerJoin(PlayerJoinMessage { id: j.id, name: j.name.clone() }),
        Message::PlayerLeave(i) => Message::PlayerLeave(*i),
        Message::DrawCard(c) => Message::DrawCard(*c),
        Message::PlayCard(c) => Message::PlayCard(*c),
        Message::Hear => Message::Hear,
        Message::Say => Message::Say,
        Message::SayFurther => Message::SayFurther,
        Message::Bid(b) => Message::Bid(*b),
        Message::NewBid(b) => Message::NewBid(*b),
        Message::PlayNormalSolo => Message::PlayNormalSolo,
        Message::PlayNormalDuo => Message::PlayNormalDuo,
        Message::YourTurn => Message::YourTurn,
        Message::Trump(t) => Message::Trump(*t),
        Message::GameWon(g) => Message::GameWon(
            GameWonMessage { id: g.id, winner_points: g.winner_points, loser_points: g.loser_points },
        ),
        Message::KeepAlive(t) => Message::KeepAlive(*t),
        Message::BackToLobby => Message::BackToLobby,
        Message::JoinGame => Message::JoinGame,
        Message::Disconnect => Message::Disconnect,
    }
}

/// What every peer at a table offers: its identity, a way to hand it a
/// message, and its next scripted move.
pub trait KnowsSkatRules {
    /// The peer as the table sees it.
    spec fn peer_view(&self) -> PeerView;

    fn id(&self) -> (r: u32)
        ensures
            r == self.peer_view().id,
    ;

    fn name(&self) -> (r: String)
        ensures
            r == self.peer_view().name,
    ;

    /// Hands a message to the peer by adding it to `outbox`, if the peer has
    /// a remote party to receive it.
    fn send_message(&self, msg: Message, outbox: &mut Vec<Outgoing>)
        ensures
            final(outbox)@ == old(outbox)@ + deliver(self.peer_view(), msg),
    ;

    /// The next queued move, or `None` once the queue is empty.
    fn expect_message(&mut self) -> (r: Option<Message>)
        ensures
            (final(self).peer_view(), r) == pop_script(old(self).peer_view()),
    ;
}

impl Player {
    pub fn new(id: u32, name: String) -> (p: Player)
        ensures
            p.id == id,
            p.name == name,
    {
        Player { id, name }
    }
}

impl NPC {
    /// A bot with the given id, named "NPC", holding the four Aces to play.
    pub fn new(id: u32) -> (n: NPC)
        ensures
            n.id == id,
            n.name@ == "NPC"@,
            n.msg_stack@ == npc_script(),
    {
        let mut msg_stack: Vec<Message> = Vec::new();
        msg_stack.push(Message::PlayCard(Card { suit: Suit::Spades, rank: Rank::Ace }));
        msg_stack.push(Message::PlayCard(Card { suit: Suit::Diamonds, rank: Rank::Ace }));
        msg_stack.push(Message::PlayCard(Card { suit: Suit::Clubs, rank: Rank::Ace }));
        msg_stack.push(Message::PlayCard(Card { suit: Suit::Hearts, rank: Rank::Ace }));
        proof {
            assert(msg_stack@ =~= npc_script());
        }
        NPC { id, name: String::from_str("NPC"), msg_stack }
    }
}

impl KnowsSkatRules for Player {
    open spec fn peer_view(&self) -> PeerView {
        PeerView { id: self.id, name: self.name, remote: true, script: seq![] }
    }

    fn id(&self) -> (r: u32) {
        self.id
    }

    fn name(&self) -> (r: String) {
        self.name.clone()
    }

    fn send_message(&self, msg: Message, outbox: &mut Vec<Outgoing>) {
        outbox.push(Outgoing { to: self.id, msg });
        proof {
            assert(final(outbox)@ =~= old(outbox)@ + deliver(self.peer_view(), msg));
        }
    }

    fn expect_message(&mut self) -> (r: Option<Message>) {
        None
    }
}

impl KnowsSkatRules for NPC {
    open spec fn peer_view(&self) -> PeerView {
        PeerView { id: self.id, name: self.name, remote: false, script: self.msg_stack@ }
    }

    fn id(&self) -> (r: u32) {
        self.id
    }

    fn name(&self) -> (r: String) {
        self.name.clone()
    }

    fn send_message(&self, msg: Message, outbox: &mut Vec<Outgoing>) {
        proof {
            assert(final(outbox)@ =~= old(outbox)@ + deliver(self.peer_view(), msg));
        }
    }

    fn expect_message(&mut self) -> (r: Option<Message>) {
        if self.msg_stack.len() > 0 {
            let m = self.msg_stack.remove(0);
            proof {
                assert(self.msg_stack@ =~= old(self).msg_stack@.drop_first());
            }
            Some(m)
        } else {
            None
        }
    }
}

impl Peer {
    pub fn id(&self) -> (r: u32)
        ensures
            r == self@.id,
    {
        match self {
            Peer::Human(p) => p.id,
            Peer::Bot(n) => n.id,
        }
    }

    pub fn name(&self) -> (r: String)
        ensures
            r == self@.name,
    {
        match self {
            Peer::Human(p) => p.name.clone(),
            Peer::Bot(n) => n.name.clone(),
        }
    }

    pub fn is_remote(&self) -> (r: bool)
        ensures
            r == self@.remote,
    {
        match self {
            Peer::Human(_) => true,
            Peer::Bot(_) => false,
        }
    }

    /// Adds the message to `outbox` for a networked player; a bot hears nothing.
    pub fn send_message(&self, msg: Message, outbox: &mut Vec<Outgoing>)
        ensures
            final(outbox)@ == old(outbox)@ + deliver(self@, msg),
    {
        match self {
            Peer::Human(p) => {
                outbox.push(Outgoing { to: p.id, msg });
            },
            Peer::Bot(_) => {
            },
        }
        proof {
            assert(final(outbox)@ =~= old(outbox)@ + deliver(self@, msg));
        }
    }

    /// Takes the next scripted move off the queue; `None` once it is empty.
    pub fn expect_message(&mut self) -> (r: Option<Message>)
        ensures
            (final(self)@, r) == pop_script(old(self)@),
    {
        match self {
            Peer::Human(_) => None,
            Peer::Bot(n) => {
                if n.msg_stack.len() > 0 {
                    let m = n.msg_stack.remove(0);
                    proof {
                        assert(n.msg_stack@ =~= old(self)@.script.drop_first());
                    }
                    Some(m)
                } else {
                    None
                }
            },
        }
    }
}

impl KnowsSkatRules for Peer {
    open spec fn peer_view(&self) -> PeerView {
        self@
    }

    fn id(&self) -> u32 {
        Peer::id(self)
    }

    fn name(&self) -> String {
        Peer::name(self)
    }

    fn send_message(&self, msg: Message, outbox: &mut Vec<Outgoing>) {
        Peer::send_message(self, msg, outbox)
    }

    fn expect_message(&mut self) -> Option<Message> {
        Peer::expect_message(self)
    }
}

} // verus!
