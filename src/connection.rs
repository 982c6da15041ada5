use vstd::prelude::*;
use crate::proto::Message;
use crate::lobby::LobbyCommand;

verus! {

/// Byte that ends every frame on the wire ('\n').
pub const FRAME_END: u8 = 10;

/// Longest time, in milliseconds, a peer may stay silent before it counts as gone.
pub const KEEP_ALIVE_TIMEOUT_MS: u64 = 5000;

/// Where the reader of a connection sends one frame it received.
#[derive(Debug)]
pub enum Incoming {
    /// A heartbeat: the peer was last seen at this time.
    KeepAlive(u64),
    /// A request for the lobby.
    Command(LobbyCommand),
    /// A move for the peer's table.
    Game(Message),
}

/// The first frame of a byte stream and the number of bytes it takes up, if
/// the stream holds a whole frame.
pub open spec fn first_frame(buf: Seq<u8>) -> Option<(Seq<u8>, nat)> {
    match buf.index_of_first(FRAME_END) {
        Some(i) => Some((buf.take(i), (i + 1) as nat)),
        None => None,
    }
}

/// What the reader does with one frame of the peer `id`: a heartbeat is
/// noted, a request for a seat goes to the lobby, every other message goes to
/// the peer's table. `None` stands for a frame that did not decode, which ends
/// the connection.
pub open spec fn spec_route_incoming(id: u32, msg: Option<Message>) -> Incoming {
    match msg {
        None => Incoming::Command(LobbyCommand::Disconnect { player_id: id }),
        Some(Message::KeepAlive(t)) => Incoming::KeepAlive(t),
        Some(Message::JoinGame) => Incoming::Command(LobbyCommand::JoinGame { player_id: id }),
        Some(m) => Incoming::Game(m),
    }
}

/// A frame holding `payload`.
pub fn encode_frame(payload: &Vec<u8>) -> (r: Vec<u8>)
    requires
        !payload@.contains(FRAME_END),
    ensures
        r@ == payload@.push(FRAME_END),
{
    let mut r: Vec<u8> = Vec::new();
    let mut i: usize = 0;
    while i < payload.len()
        invariant
            i <= payload@.len(),
            r@ == payload@.take(i as int),
        decreases payload@.len() - i,
    {
        r.push(payload[i]);
        proof {
            assert(payload@.take(i + 1) =~= payload@.take(i as int).push(payload@[i as int]));
        }
        i = i + 1;
    }
    r.push(FRAME_END);
    proof {
        assert(payload@.take(i as int) =~= payload@);
    }
    r
}

/// Splits the first frame off a byte stream: its payload and the number of
/// bytes it takes up, or `None` while no frame end has arrived.
pub fn decode_frame(buf: &Vec<u8>) -> (r: Option<(Vec<u8>, usize)>)
    ensures
        r is Some <==> first_frame(buf@) is Some,
        r matches Some((p, n)) ==> p@ == first_frame(buf@)->Some_0.0 && n as nat == first_frame(
            buf@,
        )->Some_0.1,
{
    proof {
        buf@.index_of_first_ensures(FRAME_END);
    }
    let mut payload: Vec<u8> = Vec::new();
    let mut i: usize = 0;
    while i < buf.len()
        invariant
            i <= buf@.len(),
            payload@ == buf@.take(i as int),
            forall|j: int| 0 <= j < i ==> buf@[j] != FRAME_END,
        decreases buf@.len() - i,
    {
        if buf[i] == FRAME_END {
            proof {
                assert(buf@[i as int] == FRAME_END);
                assert(buf@.contains(FRAME_END));
                buf@.index_of_first_ensures(FRAME_END);
                let k = buf@.index_of_first(FRAME_END)->Some_0;
                if k < i {
                    assert(buf@[k] != FRAME_END);
                }
            }
            return Some((payload, i + 1));
        }
        payload.push(buf[i]);
        proof {
            assert(buf@.take(i + 1) =~= buf@.take(i as int).push(buf@[i as int]));
        }
        i = i + 1;
    }
    proof {
        assert(!buf@.contains(FRAME_END));
        buf@.index_of_first_ensures(FRAME_END);
    }
    None
}

/// A payload free of frame ends, framed and followed by any bytes, comes
/// back whole as the first frame, and the frame takes up its bytes only.
pub proof fn lemma_frame_round_trip(payload: Seq<u8>, rest: Seq<u8>)
    requires
        !payload.contains(FRAME_END),
    ensures
        first_frame(payload.push(FRAME_END) + rest) == Some((payload, (payload.len() + 1) as nat)),
{
    let buf = payload.push(FRAME_END) + rest;
    let n = payload.len() as int;
    assert(buf[n] == FRAME_END);
    assert(buf.contains(FRAME_END));
    buf.index_of_first_ensures(FRAME_END);
    let k = buf.index_of_first(FRAME_END)->Some_0;
    if k < n {
        assert(payload[k] == buf[k]);
        assert(payload.contains(FRAME_END));
    }
    assert(buf.take(n) =~= payload);
}

/// Where the reader of a connection sends one decoded frame.
pub fn route_incoming(id: u32, msg: Option<Message>) -> (r: Incoming)
    ensures
        r == spec_route_incoming(id, msg),
{
    match msg {
        None => Incoming::Command(LobbyCommand::Disconnect { player_id: id }),
        Some(Message::KeepAlive(t)) => Incoming::KeepAlive(t),
        Some(Message::JoinGame) => Incoming::Command(LobbyCommand::JoinGame { player_id: id }),
        Some(m) => Incoming::Game(m),
    }
}

/// Whether a peer last seen at `last_seen` has been silent too long at `now`.
pub fn timed_out(now: u64, last_seen: u64) -> (r: bool)
    ensures
        r == (now > last_seen && now - last_seen > KEEP_ALIVE_TIMEOUT_MS),
{
    now > last_seen && now - last_seen > KEEP_ALIVE_TIMEOUT_MS
}

/// The name a peer logs in with, if the message is a login.
pub fn login_name(msg: Message) -> (r: Option<String>)
    ensures
        msg matches Message::Login(name) ==> r == Some(name),
        !(msg is Login) ==> r is None,
{
    match msg {
        Message::Login(name) => Some(name),
        _ => None,
    }
}

} // verus!
