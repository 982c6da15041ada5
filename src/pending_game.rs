use vstd::prelude::*;
use crate::proto::{Card, Message, PlayerJoinMessage};
use crate::deck::full_deck;
use crate::knows_skat::{Peer, PeerView, Outgoing, NPC, deliver, copy_message, npc_script};
use crate::game::{Game, game_wf, start};

verus! {

/// Seats filled in arrival order until a table of three can start.
#[derive(Debug)]
pub struct PendingGame {
    pub seats: Vec<Peer>,
    pub player_count: u32,
}

/// The pictures of a row of peers.
pub open spec fn peer_views(v: Seq<Peer>) -> Seq<PeerView> {
    v.map_values(|p: Peer| p@)
}

/// The ids of a row of peers.
pub open spec fn peer_ids(v: Seq<PeerView>) -> Seq<u32> {
    v.map_values(|p: PeerView| p.id)
}

/// Notice that a peer took a seat.
pub open spec fn join_message(p: PeerView) -> Message {
    Message::PlayerJoin(PlayerJoinMessage { id: p.id, name: p.name })
}

/// The message to every networked peer of a row, in order.
pub open spec fn send_all(peers: Seq<PeerView>, m: Message) -> Seq<Outgoing>
    decreases peers.len(),
{
    if peers.len() == 0 {
        seq![]
    } else {
        send_all(peers.drop_last(), m) + deliver(peers.last(), m)
    }
}

/// For each of the first `k` seated peers in turn, the notice of its seat to
/// everyone seated.
pub open spec fn join_notices_upto(seats: Seq<PeerView>, k: int) -> Seq<Outgoing>
    decreases k,
{
    if k <= 0 {
        seq![]
    } else {
        join_notices_upto(seats, k - 1) + send_all(seats, join_message(seats[k - 1]))
    }
}

/// The seating as every seated peer hears it: one notice per seated peer,
/// in seat order, to each of them.
pub open spec fn join_notices(seats: Seq<PeerView>) -> Seq<Outgoing> {
    join_notices_upto(seats, seats.len() as int)
}

impl PendingGame {
    pub open spec fn view_seats(&self) -> Seq<PeerView> {
        peer_views(self.seats@)
    }

    pub open spec fn wf(&self) -> bool {
        &&& self.seats@.len() < 3
        &&& self.player_count == self.seats@.len()
    }

    /// No one seated yet.
    pub fn new() -> (p: PendingGame)
        ensures
            p.wf(),
            p.view_seats() == Seq::<PeerView>::empty(),
    {
        let p = PendingGame { seats: Vec::new(), player_count: 0 };
        proof {
            assert(p.view_seats() =~= Seq::<PeerView>::empty());
        }
        p
    }

    fn send_all_into(&self, m: &Message, out: &mut Vec<Outgoing>)
        ensures
            final(out)@ == old(out)@ + send_all(self.view_seats(), *m),
    {
        let mut i: usize = 0;
        while i < self.seats.len()
            invariant
                i <= self.seats@.len(),
                out@ == old(out)@ + send_all(self.view_seats().take(i as int), *m),
            decreases self.seats@.len() - i,
        {
            proof {
                assert(self.view_seats().take(i + 1).drop_last() =~= self.view_seats().take(i as int));
                assert(self.view_seats()[i as int] == self.seats@[i as int]@);
            }
            self.seats[i].send_message(copy_message(m), out);
            proof {
                assert(out@ =~= old(out)@ + send_all(self.view_seats().take(i + 1), *m));
            }
            i = i + 1;
        }
        proof {
            assert(self.view_seats().take(i as int) =~= self.view_seats());
        }
    }

    fn broadcast_seating(&self, out: &mut Vec<Outgoing>)
        ensures
            final(out)@ == old(out)@ + join_notices(self.view_seats()),
    {
        let mut k: usize = 0;
        while k < self.seats.len()
            invariant
                k <= self.seats@.len(),
                out@ == old(out)@ + join_notices_upto(self.view_seats(), k as int),
            decreases self.seats@.len() - k,
        {
            let p = &self.seats[k];
            let m = Message::PlayerJoin(PlayerJoinMessage { id: p.id(), name: p.name() });
            proof {
                assert(self.view_seats()[k as int] == p@);
            }
            self.send_all_into(&m, out);
            proof {
                assert(out@ =~= old(out)@ + join_notices_upto(self.view_seats(), k + 1));
            }
            k = k + 1;
        }
    }

    /// Starts the table of the three seated peers and empties the seats.
    pub fn to_game(&mut self, id: u32, out: &mut Vec<Outgoing>) -> (g: Game)
        requires
            old(self).seats@.len() == 3,
        ensures
            final(self).wf(),
            final(self).view_seats() == Seq::<PeerView>::empty(),
            game_wf(g@),
            exists|deck: Seq<Card>|
                deck.to_multiset() == full_deck().to_multiset()
                && g@ == start(old(self).view_seats(), id, deck).0
                && final(out)@ == old(out)@ + start(old(self).view_seats(), id, deck).1,
    {
        let ghost seats = self.view_seats();
        let first = self.seats.remove(0);
        let second = self.seats.remove(0);
        let third = self.seats.remove(0);
        self.player_count = 0;
        proof {
            assert(seats =~= seq![first@, second@, third@]);
            assert(self.view_seats() =~= Seq::<PeerView>::empty());
        }
        Game::new(first, second, third, id, out)
    }

    /// Seats a peer and tells every seated peer the whole seating. The third
    /// peer completes a table: the new game (with id `game_id`) is returned
    /// and the seats are emptied.
    pub fn add_player(&mut self, player: Peer, game_id: u32, out: &mut Vec<Outgoing>) -> (g: Option<Game>)
        requires
            old(self).wf(),
        ensures
            final(self).wf(),
            ({
                let seats = old(self).view_seats().push(player@);
                &&& seats.len() < 3 ==> {
                    &&& g is None
                    &&& final(self).view_seats() == seats
                    &&& final(out)@ == old(out)@ + join_notices(seats)
                }
                &&& seats.len() == 3 ==> {
                    &&& g is Some
                    &&& final(self).view_seats() == Seq::<PeerView>::empty()
                    &&& game_wf(g->Some_0@)
                    &&& exists|deck: Seq<Card>|
                        deck.to_multiset() == full_deck().to_multiset()
                        && g->Some_0@ == start(seats, game_id, deck).0
                        && final(out)@ == old(out)@ + join_notices(seats) + start(seats, game_id, deck).1
                }
            }),
    {
        let ghost seats = self.view_seats().push(player@);
        self.seats.push(player);
        self.player_count = self.player_count + 1;
        proof {
            assert(self.view_seats() =~= seats);
        }
        self.broadcast_seating(out);
        if self.seats.len() == 3 {
            let ghost mid = out@;
            let g = self.to_game(game_id, out);
            proof {
                let deck = choose|deck: Seq<Card>|
                    deck.to_multiset() == full_deck().to_multiset()
                    && g@ == start(seats, game_id, deck).0
                    && out@ == mid + start(seats, game_id, deck).1;
                assert(out@ =~= old(out)@ + join_notices(seats) + start(seats, game_id, deck).1);
            }
            Some(g)
        } else {
            None
        }
    }

    /// Seats a new bot with the given id, as `add_player` does.
    pub fn add_npc(&mut self, id: u32, game_id: u32, out: &mut Vec<Outgoing>) -> (g: Option<Game>)
        requires
            old(self).wf(),
        ensures
            final(self).wf(),
            exists|bot: PeerView|
                bot.id == id && bot.name@ == "NPC"@ && !bot.remote && bot.script == npc_script() && ({
                    let seats = old(self).view_seats().push(bot);
                    &&& seats.len() < 3 ==> {
                        &&& g is None
                        &&& final(self).view_seats() == seats
                        &&& final(out)@ == old(out)@ + join_notices(seats)
                    }
                    &&& seats.len() == 3 ==> {
                        &&& g is Some
                        &&& final(self).view_seats() == Seq::<PeerView>::empty()
                        &&& game_wf(g->Some_0@)
                        &&& exists|deck: Seq<Card>|
                            deck.to_multiset() == full_deck().to_multiset()
                            && g->Some_0@ == start(seats, game_id, deck).0
                            && final(out)@ == old(out)@ + join_notices(seats) + start(seats, game_id, deck).1
                    }
                }),
    {
        let bot = Peer::Bot(NPC::new(id));
        let ghost b = bot@;
        let g = self.add_player(bot, game_id, out);
        proof {
            assert(b.id == id && b.name@ == "NPC"@ && !b.remote && b.script == npc_script());
        }
        g
    }

    /// Takes the first seated peer with this id off its seat, closing the gap,
    /// and tells everyone still seated that the id left, whether or not it was
    /// seated.
    pub fn try_remove_player(&mut self, id: u32, out: &mut Vec<Outgoing>)
        requires
            old(self).wf(),
        ensures
            final(self).wf(),
            ({
                let v = old(self).view_seats();
                let rest = match peer_ids(v).index_of_first(id) {
                    Some(k) => v.remove(k),
                    None => v,
                };
                &&& final(self).view_seats() == rest
                &&& final(out)@ == old(out)@ + send_all(rest, Message::PlayerLeave(id))
            }),
    {
        let ghost v = self.view_seats();
        proof {
            peer_ids(v).index_of_first_ensures(id);
        }
        let mut i: usize = 0;
        let mut found = false;
        while i < self.seats.len() && !found
            invariant
                i <= self.seats@.len(),
                self.seats@ == old(self).seats@,
                v == self.view_seats(),
                found ==> i < self.seats@.len() && peer_ids(v)[i as int] == id,
                forall|j: int| 0 <= j < i ==> peer_ids(v)[j] != id,
            decreases self.seats@.len() - i + if found {
                0int
            } else {
                1int
            },
        {
            if self.seats[i].id() == id {
                found = true;
            } else {
                i = i + 1;
            }
        }
        if found {
            let _ = self.seats.remove(i);
            self.player_count = self.player_count - 1;
            proof {
                assert(peer_ids(v).index_of_first(id) == Some(i as int));
                assert(self.view_seats() =~= v.remove(i as int));
            }
        } else {
            proof {
                assert(!peer_ids(v).contains(id));
            }
        }
        let m = Message::PlayerLeave(id);
        self.send_all_into(&m, out);
    }
}

} // verus!

verus! {

/// Once three networked peers are seated, each of them hears the same
/// seating: one notice per seat, in seat order.
pub proof fn lemma_full_seating(seats: Seq<PeerView>)
    requires
        seats.len() == 3,
        forall|i: int| 0 <= i < 3 ==> #[trigger] seats[i].remote,
    ensures
        join_notices(seats) == Seq::new(
            9,
            |x: int| Outgoing { to: seats[x % 3].id, msg: join_message(seats[x / 3]) },
        ),
{
    assert(seats[0].remote && seats[1].remote && seats[2].remote);
    assert(seats.drop_last().drop_last().drop_last() =~= Seq::<PeerView>::empty());
    reveal_with_fuel(send_all, 4);
    reveal_with_fuel(join_notices_upto, 4);
    assert(join_notices(seats) =~= Seq::new(
        9,
        |x: int| Outgoing { to: seats[x % 3].id, msg: join_message(seats[x / 3]) },
    ));
}

} // verus!
