use vstd::prelude::*;
use crate::proto::{Card, Message};
use crate::deck::{full_deck, new_shuffled_deck};
use crate::round::{Round, RoundView, Delivery, round_wf, deal, step, waiting_seat, default_move};
use crate::knows_skat::{Peer, PeerView, Outgoing, pop_script, deliver, copy_message};

verus! {

/// Most moves the bots at a table make in answer to one event.
pub const BOT_FUEL: usize = 200;

/// A table of three peers playing one round.
#[derive(Debug)]
pub struct Game {
    pub id: u32,
    pub player_1: Peer,
    pub player_2: Peer,
    pub player_3: Peer,
    pub round: Round,
}

/// Mathematical picture of a `Game`.
pub struct GameView {
    pub id: u32,
    pub seats: Seq<PeerView>,
    pub round: RoundView,
}

impl View for Game {
    type V = GameView;

    open spec fn view(&self) -> GameView {
        GameView {
            id: self.id,
            seats: seq![self.player_1@, self.player_2@, self.player_3@],
            round: self.round@,
        }
    }
}

/// Messages of a round turned into messages to the peers at its seats.
pub open spec fn route(seats: Seq<PeerView>, ds: Seq<Delivery>) -> Seq<Outgoing>
    decreases ds.len(),
{
    if ds.len() == 0 {
        seq![]
    } else {
        route(seats, ds.drop_last()) + if ds.last().seat < 3 {
            deliver(seats[ds.last().seat as int], ds.last().msg)
        } else {
            seq![]
        }
    }
}

/// The bots at a table play while the round waits for one of them, at most
/// `fuel` moves: each plays its next queued move, or the default move once its
/// queue is empty.
pub open spec fn run_bots(g: GameView, fuel: nat) -> (GameView, Seq<Outgoing>)
    decreases fuel,
{
    if fuel == 0 {
        (g, seq![])
    } else {
        match waiting_seat(g.round) {
            Some(k) => {
                if k < 3 && !g.seats[k as int].remote {
                    let (p, m) = pop_script(g.seats[k as int]);
                    let mv = match m {
                        Some(m) => m,
                        None => default_move(g.round, k),
                    };
                    let (r, ds) = step(g.round, k, mv);
                    let g2 = GameView { seats: g.seats.update(k as int, p), round: r, ..g };
                    let (g3, o) = run_bots(g2, (fuel - 1) as nat);
                    (g3, route(g2.seats, ds) + o)
                } else {
                    (g, seq![])
                }
            },
            None => (g, seq![]),
        }
    }
}

/// A new table: the deal of `deck`, its messages, and the bots' first moves.
pub open spec fn start(seats: Seq<PeerView>, id: u32, deck: Seq<Card>) -> (GameView, Seq<Outgoing>) {
    let (r, ds) = deal(deck, seq![seats[0].id, seats[1].id, seats[2].id]);
    let (g, o) = run_bots(GameView { id, seats, round: r }, BOT_FUEL as nat);
    (g, route(seats, ds) + o)
}

/// The seat of the first peer at the table with this id.
pub open spec fn seat_of(seats: Seq<PeerView>, id: u32) -> Option<usize> {
    if seats[0].id == id {
        Some(0usize)
    } else if seats[1].id == id {
        Some(1usize)
    } else if seats[2].id == id {
        Some(2usize)
    } else {
        None
    }
}

/// What a message from the peer `from` does to a table: the round takes it
/// from that peer's seat, then the bots answer.
pub open spec fn game_step(g: GameView, from: u32, msg: Message) -> (GameView, Seq<Outgoing>) {
    match seat_of(g.seats, from) {
        Some(k) => {
            let (r, ds) = step(g.round, k, msg);
            let g2 = GameView { round: r, ..g };
            let (g3, o) = run_bots(g2, BOT_FUEL as nat);
            (g3, route(g.seats, ds) + o)
        },
        None => (g, seq![]),
    }
}

proof fn lemma_add_assoc(a: Seq<Outgoing>, b: Seq<Outgoing>, c: Seq<Outgoing>)
    ensures
        (a + b) + c == a + (b + c),
{
    assert((a + b) + c =~= a + (b + c));
}

pub open spec fn game_wf(g: GameView) -> bool {
    &&& g.seats.len() == 3
    &&& round_wf(g.round)
}

impl Game {
    fn seat(&self, k: usize) -> (p: &Peer)
        requires
            k < 3,
        ensures
            p@ == self@.seats[k as int],
    {
        if k == 0 {
            &self.player_1
        } else if k == 1 {
            &self.player_2
        } else {
            &self.player_3
        }
    }

    /// Sends the messages of the round to the peers they are for.
    fn route_into(&self, ds: &Vec<Delivery>, out: &mut Vec<Outgoing>)
        ensures
            final(out)@ == old(out)@ + route(self@.seats, ds@),
    {
        let mut i: usize = 0;
        while i < ds.len()
            invariant
                i <= ds@.len(),
                out@ == old(out)@ + route(self@.seats, ds@.take(i as int)),
            decreases ds@.len() - i,
        {
            let d = &ds[i];
            proof {
                assert(ds@.take(i + 1).drop_last() =~= ds@.take(i as int));
            }
            if d.seat < 3 {
                self.seat(d.seat).send_message(copy_message(&d.msg), out);
            }
            proof {
                lemma_add_assoc(old(out)@, route(self@.seats, ds@.take(i as int)),
                    if d.seat < 3 { deliver(self@.seats[d.seat as int], d.msg) } else { seq![] });
            }
            i = i + 1;
        }
        proof {
            assert(ds@.take(i as int) =~= ds@);
        }
    }

    /// Lets the bots play while the round waits for one of them.
    fn run_bots(&mut self, out: &mut Vec<Outgoing>)
        requires
            game_wf(old(self)@),
        ensures
            game_wf(final(self)@),
            final(self)@ == run_bots(old(self)@, BOT_FUEL as nat).0,
            final(out)@ == old(out)@ + run_bots(old(self)@, BOT_FUEL as nat).1,
    {
        let mut fuel: usize = BOT_FUEL;
        let mut done = false;
        while fuel > 0 && !done
            invariant
                game_wf(self@),
                fuel <= BOT_FUEL,
                done ==> run_bots(self@, fuel as nat) == (self@, Seq::<Outgoing>::empty()),
                run_bots(old(self)@, BOT_FUEL as nat).0 == run_bots(self@, fuel as nat).0,
                old(out)@ + run_bots(old(self)@, BOT_FUEL as nat).1 == out@ + run_bots(self@, fuel as nat).1,
            decreases fuel + if done {
                0int
            } else {
                1int
            },
        {
            let ghost g = self@;
            let w = self.round.waiting_for();
            match w {
                Some(k) => {
                    if k < 3 && !self.seat(k).is_remote() {
                        let m = if k == 0 {
                            self.player_1.expect_message()
                        } else if k == 1 {
                            self.player_2.expect_message()
                        } else {
                            self.player_3.expect_message()
                        };
                        let mv = match m {
                            Some(m) => m,
                            None => self.round.default_move(k),
                        };
                        let ds = self.round.handle(k, mv);
                        let ghost g2 = self@;
                        proof {
                            assert(g2.seats =~= g.seats.update(k as int, pop_script(g.seats[k as int]).0));
                        }
                        self.route_into(&ds, out);
                        proof {
                            let (g3, o) = run_bots(g2, (fuel - 1) as nat);
                            assert(run_bots(g, fuel as nat) == (g3, route(g2.seats, ds@) + o));
                            lemma_add_assoc(out@, Seq::<Outgoing>::empty(), o);
                        }
                        fuel = fuel - 1;
                    } else {
                        done = true;
                    }
                },
                None => {
                    done = true;
                },
            }
        }
        proof {
            if fuel == 0 {
                assert(run_bots(self@, 0) == (self@, Seq::<Outgoing>::empty()));
            }
            assert(out@ + Seq::<Outgoing>::empty() =~= out@);
        }
    }

    /// A table for three peers with a deal of the given deck; the deal's
    /// messages and the bots' first moves go to `out`.
    pub fn with_deck(player_1: Peer, player_2: Peer, player_3: Peer, id: u32, deck: &Vec<Card>, out: &mut Vec<Outgoing>) -> (g: Game)
        requires
            deck@.to_multiset() == full_deck().to_multiset(),
        ensures
            game_wf(g@),
            g@ == start(seq![player_1@, player_2@, player_3@], id, deck@).0,
            final(out)@ == old(out)@ + start(seq![player_1@, player_2@, player_3@], id, deck@).1,
    {
        let ids: [u32; 3] = [player_1.id(), player_2.id(), player_3.id()];
        proof {
            assert(ids@ =~= seq![player_1@.id, player_2@.id, player_3@.id]);
        }
        let (round, ds) = Round::new(deck, ids);
        let mut g = Game { id, player_1, player_2, player_3, round };
        g.route_into(&ds, out);
        let ghost mid = out@;
        g.run_bots(out);
        proof {
            lemma_add_assoc(old(out)@, route(seq![player_1@, player_2@, player_3@], ds@),
                run_bots(GameView { id, seats: seq![player_1@, player_2@, player_3@], round: round@ }, BOT_FUEL as nat).1);
        }
        g
    }

    /// A table for three peers with a freshly shuffled deck.
    pub fn new(player_1: Peer, player_2: Peer, player_3: Peer, id: u32, out: &mut Vec<Outgoing>) -> (g: Game)
        ensures
            game_wf(g@),
            exists|deck: Seq<Card>|
                deck.to_multiset() == full_deck().to_multiset()
                && g@ == start(seq![player_1@, player_2@, player_3@], id, deck).0
                && final(out)@ == old(out)@ + start(seq![player_1@, player_2@, player_3@], id, deck).1,
    {
        let deck = new_shuffled_deck();
        Game::with_deck(player_1, player_2, player_3, id, &deck, out)
    }

    /// Whether a peer with this id sits at the table.
    pub fn has_player_by_id(&self, id: u32) -> (r: bool)
        ensures
            r == (seat_of(self@.seats, id) is Some),
    {
        self.player_1.id() == id || self.player_2.id() == id || self.player_3.id() == id
    }

    /// Whether the round at the table has come to an end.
    pub fn is_over(&self) -> (r: bool)
        ensures
            r == (self@.round.phase == crate::round::Phase::Finished || self@.round.phase
                == crate::round::Phase::AllPassed),
    {
        self.round.is_over()
    }

    /// Takes a message from the peer `from` and lets the bots answer.
    pub fn handle(&mut self, from: u32, msg: Message, out: &mut Vec<Outgoing>)
        requires
            game_wf(old(self)@),
        ensures
            game_wf(final(self)@),
            final(self)@ == game_step(old(self)@, from, msg).0,
            final(out)@ == old(out)@ + game_step(old(self)@, from, msg).1,
    {
        let k: usize = if self.player_1.id() == from {
            0
        } else if self.player_2.id() == from {
            1
        } else if self.player_3.id() == from {
            2
        } else {
            proof {
                assert(out@ =~= old(out)@ + Seq::<Outgoing>::empty());
            }
            return;
        };
        let ghost g = self@;
        let ds = self.round.handle(k, msg);
        self.route_into(&ds, out);
        self.run_bots(out);
        proof {
            let (r, ds2) = step(g.round, k, msg);
            let g2 = GameView { round: r, ..g };
            lemma_add_assoc(old(out)@, route(g.seats, ds@), run_bots(g2, BOT_FUEL as nat).1);
        }
    }

    /// Ends the table and hands its three peers back, in seat order.
    pub fn close(self) -> (r: Vec<Peer>)
        ensures
            r@.len() == 3,
            r@[0]@ == self@.seats[0],
            r@[1]@ == self@.seats[1],
            r@[2]@ == self@.seats[2],
    {
        let mut r: Vec<Peer> = Vec::new();
        r.push(self.player_1);
        r.push(self.player_2);
        r.push(self.player_3);
        r
    }
}

} // verus!

verus! {

/// Two rows of peers name the same peers: same ids, names and kinds, seat
/// by seat (their queued moves may differ).
pub open spec fn same_peers(a: Seq<PeerView>, b: Seq<PeerView>) -> bool {
    &&& a.len() == b.len()
    &&& forall|i: int|
        0 <= i < a.len() ==> #[trigger] a[i].id == b[i].id && a[i].name == b[i].name && a[i].remote
            == b[i].remote
}

/// Bots playing change no one's seat.
pub proof fn lemma_run_bots_keeps_peers(g: GameView, fuel: nat)
    requires
        g.seats.len() == 3,
    ensures
        same_peers(run_bots(g, fuel).0.seats, g.seats),
        run_bots(g, fuel).0.id == g.id,
    decreases fuel,
{
    if fuel > 0 {
        match waiting_seat(g.round) {
            Some(k) => {
                if k < 3 && !g.seats[k as int].remote {
                    let (p, m) = pop_script(g.seats[k as int]);
                    let mv = match m {
                        Some(m) => m,
                        None => default_move(g.round, k),
                    };
                    let (r, ds) = step(g.round, k, mv);
                    let g2 = GameView { seats: g.seats.update(k as int, p), round: r, ..g };
                    lemma_run_bots_keeps_peers(g2, (fuel - 1) as nat);
                    let s3 = run_bots(g2, (fuel - 1) as nat).0.seats;
                    assert forall|i: int| 0 <= i < s3.len() implies #[trigger] s3[i].id == g.seats[i].id
                        && s3[i].name == g.seats[i].name && s3[i].remote == g.seats[i].remote by {
                        assert(s3[i].id == g2.seats[i].id);
                    }
                }
            },
            None => {},
        }
    }
}

/// A move at a table changes no one's seat.
pub proof fn lemma_game_step_keeps_peers(g: GameView, from: u32, msg: Message)
    requires
        g.seats.len() == 3,
    ensures
        same_peers(game_step(g, from, msg).0.seats, g.seats),
        game_step(g, from, msg).0.id == g.id,
{
    match seat_of(g.seats, from) {
        Some(k) => {
            let (r, ds) = step(g.round, k, msg);
            let g2 = GameView { round: r, ..g };
            lemma_run_bots_keeps_peers(g2, BOT_FUEL as nat);
        },
        None => {},
    }
}

/// A new table seats exactly the peers it was given.
pub proof fn lemma_start_keeps_peers(seats: Seq<PeerView>, id: u32, deck: Seq<Card>)
    requires
        seats.len() == 3,
    ensures
        same_peers(start(seats, id, deck).0.seats, seats),
{
    let (r, ds) = deal(deck, seq![seats[0].id, seats[1].id, seats[2].id]);
    lemma_run_bots_keeps_peers(GameView { id, seats, round: r }, BOT_FUEL as nat);
}

} // verus!
