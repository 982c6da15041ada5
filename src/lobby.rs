use vstd::prelude::*;
use crate::proto::{Card, Message};
use crate::deck::full_deck;
use crate::round::Phase;
use crate::knows_skat::{Peer, PeerView, Player, NPC, Outgoing, npc_script};
use crate::game::{Game, GameView, game_wf, start, seat_of, game_step};
use crate::ownership::{
    ids_ok, lobby_ids, table_ids, lemma_connect_ids, lemma_join_ids, lemma_add_bot_ids, lemma_login_ids,
    lemma_disconnect_ids, lemma_play_ids,
};
use crate::pending_game::{PendingGame, peer_views, peer_ids, join_notices, join_notices_upto, send_all};

verus! {

/// The requests the lobby takes, one at a time.
#[derive(Debug)]
pub enum LobbyCommand {
    JoinGame { player_id: u32 },
    Disconnect { player_id: u32 },
    Login { player_id: u32, name: String },
    AddNPC,
}

/// Everything the server knows of its peers: the players waiting unseated,
/// the seats of the next table, the tables in play, and the id counters.
#[derive(Debug)]
pub struct Lobby {
    pub players: Vec<Peer>,
    pub games: Vec<Game>,
    pub pending_game: PendingGame,
    pub player_count: u32,
    pub game_count: u32,
}

/// Mathematical picture of a `Lobby`.
pub struct LobbyView {
    pub players: Seq<PeerView>,
    pub pending: Seq<PeerView>,
    pub games: Seq<GameView>,
    pub player_count: u32,
    pub game_count: u32,
}

impl View for Lobby {
    type V = LobbyView;

    open spec fn view(&self) -> LobbyView {
        LobbyView {
            players: peer_views(self.players@),
            pending: self.pending_game.view_seats(),
            games: self.games@.map_values(|g: Game| g@),
            player_count: self.player_count,
            game_count: self.game_count,
        }
    }
}

/// The seats of the next table are not full and every table is well formed.
pub open spec fn tables_wf(l: LobbyView) -> bool {
    &&& l.pending.len() < 3
    &&& forall|k: int| 0 <= k < l.games.len() ==> game_wf(#[trigger] l.games[k])
}

/// Well-formedness of a lobby: sound tables, and each peer in exactly one
/// place under an id that came from the counter.
pub open spec fn lobby_wf(l: LobbyView) -> bool {
    &&& tables_wf(l)
    &&& ids_ok(l)
}

/// A networked player who logged in under `name`.
pub open spec fn human(id: u32, name: String) -> PeerView {
    PeerView { id, name, remote: true, script: seq![] }
}

/// The next table id; the counter stops at its largest value.
pub open spec fn next_count(c: u32) -> u32 {
    if c < u32::MAX {
        (c + 1) as u32
    } else {
        c
    }
}

/// The peers of a row but those with this id, in order.
pub open spec fn without(ps: Seq<PeerView>, id: u32) -> Seq<PeerView>
    decreases ps.len(),
{
    if ps.len() == 0 {
        seq![]
    } else {
        without(ps.drop_last(), id) + if ps.last().id != id {
            seq![ps.last()]
        } else {
            seq![]
        }
    }
}

/// A "return to lobby" notice to each networked peer of the row; bots hear
/// nothing.
pub open spec fn back_notices(ps: Seq<PeerView>) -> Seq<Outgoing> {
    send_all(ps, Message::BackToLobby)
}

/// Position of the first table at which a peer with this id sits.
pub open spec fn game_index(games: Seq<GameView>, id: u32) -> Option<int> {
    games.map_values(|g: GameView| seat_of(g.seats, id) is Some).index_of_first(true)
}

/// A new connection, logged in under `name`: it gets the next id, hears it,
/// and waits in the lobby. Nothing happens once the ids are used up.
pub open spec fn connect(l: LobbyView, name: String) -> (LobbyView, Option<u32>, Seq<Outgoing>) {
    if l.player_count == u32::MAX {
        (l, None, seq![])
    } else {
        let id = l.player_count;
        (
            LobbyView {
                players: l.players.push(human(id, name)),
                player_count: (id + 1) as u32,
                ..l
            },
            Some(id),
            seq![Outgoing { to: id, msg: Message::ConfirmJoin(id) }],
        )
    }
}

/// Whether the round at a table has come to an end.
pub open spec fn round_over(g: GameView) -> bool {
    g.round.phase == Phase::Finished || g.round.phase == Phase::AllPassed
}

/// A new table joins the tables in play; one whose round ended at once (all
/// seats bots that passed) is closed right away and its peers wait again.
pub open spec fn settle(l: LobbyView, g: GameView) -> LobbyView {
    if round_over(g) {
        LobbyView { players: l.players + g.seats, game_count: next_count(l.game_count), ..l }
    } else {
        LobbyView { games: l.games.push(g), game_count: next_count(l.game_count), ..l }
    }
}

/// A peer takes the next seat; the third starts a table with a deal of `deck`.
pub open spec fn seat(l: LobbyView, peer: PeerView, deck: Seq<Card>) -> (LobbyView, Seq<Outgoing>) {
    let seats = l.pending.push(peer);
    if seats.len() < 3 {
        (LobbyView { pending: seats, ..l }, join_notices(seats))
    } else {
        let (g, o) = start(seats, l.game_count, deck);
        (settle(LobbyView { pending: seq![], ..l }, g), join_notices(seats) + o)
    }
}

/// A waiting player asks for a seat.
pub open spec fn join(l: LobbyView, id: u32, deck: Seq<Card>) -> (LobbyView, Seq<Outgoing>) {
    match peer_ids(l.players).index_of_first(id) {
        Some(k) => seat(LobbyView { players: l.players.remove(k), ..l }, l.players[k], deck),
        None => (l, seq![]),
    }
}

/// A new bot with the next id takes a seat.
pub open spec fn add_bot(l: LobbyView, bot_name: String, deck: Seq<Card>) -> (LobbyView, Seq<Outgoing>) {
    if l.player_count == u32::MAX {
        (l, seq![])
    } else {
        let bot = PeerView { id: l.player_count, name: bot_name, remote: false, script: npc_script() };
        seat(LobbyView { player_count: (l.player_count + 1) as u32, ..l }, bot, deck)
    }
}

/// A waiting player takes a new name.
pub open spec fn login(l: LobbyView, id: u32, name: String) -> LobbyView {
    match peer_ids(l.players).index_of_first(id) {
        Some(k) => LobbyView { players: l.players.update(k, PeerView { name, ..l.players[k] }), ..l },
        None => l,
    }
}

/// A peer leaves: off its seat (everyone still seated hears of it), its table
/// closed with the other peers sent back to the lobby, and out of the lobby.
pub open spec fn disconnect(l: LobbyView, id: u32) -> (LobbyView, Seq<Outgoing>) {
    let rest = match peer_ids(l.pending).index_of_first(id) {
        Some(k) => l.pending.remove(k),
        None => l.pending,
    };
    let o = send_all(rest, Message::PlayerLeave(id));
    match game_index(l.games, id) {
        Some(k) => {
            let back = without(l.games[k].seats, id);
            (
                LobbyView {
                    pending: rest,
                    games: l.games.remove(k),
                    players: without(l.players + back, id),
                    ..l
                },
                o + back_notices(back),
            )
        },
        None => (LobbyView { pending: rest, players: without(l.players, id), ..l }, o),
    }
}

/// A peer's move goes to its table; a table whose round is over is closed and
/// its peers wait in the lobby again.
pub open spec fn play(l: LobbyView, id: u32, msg: Message) -> (LobbyView, Seq<Outgoing>) {
    match game_index(l.games, id) {
        Some(k) => {
            let (g, o) = game_step(l.games[k], id, msg);
            if round_over(g) {
                (
                    LobbyView { games: l.games.remove(k), players: l.players + g.seats, ..l },
                    o,
                )
            } else {
                (LobbyView { games: l.games.update(k, g), ..l }, o)
            }
        },
        None => (l, seq![]),
    }
}

proof fn lemma_games_push(games: Seq<Game>, g: Game)
    ensures
        games.push(g).map_values(|x: Game| x@) == games.map_values(|x: Game| x@).push(g@),
{
    assert(games.push(g).map_values(|x: Game| x@) =~= games.map_values(|x: Game| x@).push(g@));
}

impl Lobby {
    /// An empty lobby; ids start at 0.
    pub fn new() -> (l: Lobby)
        ensures
            lobby_wf(l@),
            l@.players == Seq::<PeerView>::empty(),
            l@.pending == Seq::<PeerView>::empty(),
            l@.games == Seq::<GameView>::empty(),
            l@.player_count == 0,
            l@.game_count == 0,
            l.pending_game.wf(),
    {
        let l = Lobby {
            players: Vec::new(),
            games: Vec::new(),
            pending_game: PendingGame::new(),
            player_count: 0,
            game_count: 0,
        };
        proof {
            assert(l@.games =~= Seq::<GameView>::empty());
            assert(lobby_ids(l@) =~= Seq::<u32>::empty()) by {
                assert(table_ids(l@.games) =~= Seq::<u32>::empty());
                assert(peer_ids(l@.players) =~= Seq::<u32>::empty());
                assert(peer_ids(l@.pending) =~= Seq::<u32>::empty());
            }
        }
        l
    }

    /// Welcomes a new connection whose peer logged in as `name`.
    pub fn add_new_player(&mut self, name: String, out: &mut Vec<Outgoing>) -> (id: Option<u32>)
        requires
            lobby_wf(old(self)@),
            old(self).pending_game.wf(),
        ensures
            lobby_wf(final(self)@),
            final(self).pending_game.wf(),
            final(self)@ == connect(old(self)@, name).0,
            id == connect(old(self)@, name).1,
            final(out)@ == old(out)@ + connect(old(self)@, name).2,
    {
        proof {
            lemma_connect_ids(old(self)@, name);
        }
        if self.player_count == u32::MAX {
            proof {
                assert(out@ =~= old(out)@ + Seq::<Outgoing>::empty());
            }
            return None;
        }
        let id = self.player_count;
        self.player_count = id + 1;
        let ghost before = self.players@;
        self.players.push(Peer::Human(Player { id, name }));
        out.push(Outgoing { to: id, msg: Message::ConfirmJoin(id) });
        proof {
            assert(peer_views(self.players@) =~= peer_views(before).push(human(id, name)));
            assert(out@ =~= old(out)@ + connect(old(self)@, name).2);
            assert(self@.games =~= old(self)@.games);
        }
        Some(id)
    }

    fn find_player(&self, id: u32) -> (r: Option<usize>)
        ensures
            r matches Some(k) ==> peer_ids(self@.players).index_of_first(id) == Some(k as int) && k
                < self.players@.len(),
            r is None ==> peer_ids(self@.players).index_of_first(id) is None,
    {
        let ghost ids = peer_ids(self@.players);
        proof {
            ids.index_of_first_ensures(id);
        }
        let mut i: usize = 0;
        while i < self.players.len()
            invariant
                i <= self.players@.len(),
                ids == peer_ids(self@.players),
                forall|j: int| 0 <= j < i ==> ids[j] != id,
            decreases self.players@.len() - i,
        {
            if self.players[i].id() == id {
                proof {
                    assert(ids[i as int] == id);
                    assert(ids.contains(id));
                    ids.index_of_first_ensures(id);
                    let idx = ids.index_of_first(id)->Some_0;
                    if idx < i {
                        assert(ids[idx] != id);
                    }
                }
                return Some(i);
            }
            i = i + 1;
        }
        proof {
            assert(!ids.contains(id));
        }
        None
    }

    fn find_game(&self, id: u32) -> (r: Option<usize>)
        ensures
            r matches Some(k) ==> game_index(self@.games, id) == Some(k as int) && k < self.games@.len(),
            r is None ==> game_index(self@.games, id) is None,
    {
        let ghost marks = self@.games.map_values(|g: GameView| seat_of(g.seats, id) is Some);
        proof {
            marks.index_of_first_ensures(true);
        }
        let mut i: usize = 0;
        while i < self.games.len()
            invariant
                i <= self.games@.len(),
                marks == self@.games.map_values(|g: GameView| seat_of(g.seats, id) is Some),
                forall|j: int| 0 <= j < i ==> marks[j] != true,
            decreases self.games@.len() - i,
        {
            if self.games[i].has_player_by_id(id) {
                proof {
                    assert(marks[i as int] == true);
                    assert(marks.contains(true));
                    marks.index_of_first_ensures(true);
                    let idx = marks.index_of_first(true)->Some_0;
                    if idx < i {
                        assert(marks[idx] != true);
                    }
                }
                return Some(i);
            }
            i = i + 1;
        }
        proof {
            assert(!marks.contains(true));
        }
        None
    }

    /// Starts a game that the pending seats completed.
    fn keep_game(&mut self, g: Option<Game>)
        requires
            g matches Some(x) ==> game_wf(x@),
            tables_wf(old(self)@),
        ensures
            tables_wf(final(self)@),
            final(self).pending_game == old(self).pending_game,
            final(self).player_count == old(self).player_count,
            g is None ==> final(self)@ == old(self)@,
            g matches Some(x) ==> final(self)@ == settle(old(self)@, x@),
    {
        match g {
            Some(x) => {
                if self.game_count < u32::MAX {
                    self.game_count = self.game_count + 1;
                }
                if x.is_over() {
                    let ghost gv = x@;
                    let peers = x.close();
                    proof {
                        assert(peer_views(peers@) =~= gv.seats);
                    }
                    self.append_players(peers);
                    return;
                }
                proof {
                    lemma_games_push(self.games@, x);
                }
                self.games.push(x);
                proof {
                    assert forall|k: int| 0 <= k < self@.games.len() implies game_wf(#[trigger] self@.games[k]) by {
                        if k < old(self)@.games.len() {
                            assert(self@.games[k] == old(self)@.games[k]);
                        }
                    }
                }
            },
            None => {},
        }
    }

    /// Moves a waiting player to the next free seat.
    pub fn join_game(&mut self, id: u32, out: &mut Vec<Outgoing>)
        requires
            lobby_wf(old(self)@),
            old(self).pending_game.wf(),
        ensures
            lobby_wf(final(self)@),
            final(self).pending_game.wf(),
            exists|deck: Seq<Card>|
                deck.to_multiset() == full_deck().to_multiset() && final(self)@ == join(old(self)@, id, deck).0
                    && final(out)@ == old(out)@ + join(old(self)@, id, deck).1,
    {
        match self.find_player(id) {
            Some(k) => {
                let p = self.players.remove(k);
                let ghost l1 = LobbyView { players: old(self)@.players.remove(k as int), ..old(self)@ };
                let gid = self.game_count;
                proof {
                    assert(peer_views(self.players@) =~= old(self)@.players.remove(k as int));
                }
                let g = self.pending_game.add_player(p, gid, out);
                self.keep_game(g);
                proof {
                    let seats = l1.pending.push(old(self)@.players[k as int]);
                    if seats.len() < 3 {
                        assert(join(old(self)@, id, full_deck()).0 == self@);
                        assert(full_deck().to_multiset() == full_deck().to_multiset());
                        lemma_join_ids(old(self)@, id, full_deck());
                    } else {
                        let deck = choose|deck: Seq<Card>|
                            deck.to_multiset() == full_deck().to_multiset()
                            && g->Some_0@ == start(seats, gid, deck).0
                            && out@ == old(out)@ + join_notices(seats) + start(seats, gid, deck).1;
                        assert(join(old(self)@, id, deck).0 == self@);
                        assert(out@ =~= old(out)@ + join(old(self)@, id, deck).1);
                        lemma_join_ids(old(self)@, id, deck);
                    }
                }
            },
            None => {
                proof {
                    assert(out@ =~= old(out)@ + join(old(self)@, id, full_deck()).1);
                }
            },
        }
    }

    /// Seats a new bot under the next id.
    pub fn add_npc(&mut self, out: &mut Vec<Outgoing>)
        requires
            lobby_wf(old(self)@),
            old(self).pending_game.wf(),
        ensures
            lobby_wf(final(self)@),
            final(self).pending_game.wf(),
            old(self).player_count == u32::MAX ==> final(self)@ == old(self)@ && final(out)@ == old(out)@,
            old(self).player_count < u32::MAX ==> exists|bot_name: String, deck: Seq<Card>|
                bot_name@ == "NPC"@ && deck.to_multiset() == full_deck().to_multiset() && final(self)@
                    == add_bot(old(self)@, bot_name, deck).0 && final(out)@ == old(out)@ + add_bot(
                    old(self)@,
                    bot_name,
                    deck,
                ).1,
    {
        if self.player_count == u32::MAX {
            return;
        }
        let id = self.player_count;
        self.player_count = id + 1;
        let gid = self.game_count;
        let ghost l1 = self@;
        let g = self.pending_game.add_npc(id, gid, out);
        proof {
            assert(self@.games == old(self)@.games);
            assert(self@.pending.len() < 3);
        }
        self.keep_game(g);
        proof {
            let bot = choose|bot: PeerView|
                bot.id == id && bot.name@ == "NPC"@ && !bot.remote && bot.script == npc_script() && ({
                    let seats = l1.pending.push(bot);
                    &&& seats.len() < 3 ==> {
                        &&& g is None
                        &&& self@.pending == seats
                        &&& out@ == old(out)@ + join_notices(seats)
                    }
                    &&& seats.len() == 3 ==> {
                        &&& g is Some
                        &&& self@.pending == Seq::<PeerView>::empty()
                        &&& game_wf(g->Some_0@)
                        &&& exists|deck: Seq<Card>|
                            deck.to_multiset() == full_deck().to_multiset()
                            && g->Some_0@ == start(seats, gid, deck).0
                            && out@ == old(out)@ + join_notices(seats) + start(seats, gid, deck).1
                    }
                });
            let seats = l1.pending.push(bot);
            assert(bot == PeerView { id: old(self)@.player_count, name: bot.name, remote: false, script: npc_script() });
            if seats.len() < 3 {
                assert(add_bot(old(self)@, bot.name, full_deck()).0 == self@);
                assert(out@ =~= old(out)@ + add_bot(old(self)@, bot.name, full_deck()).1);
                lemma_add_bot_ids(old(self)@, bot.name, full_deck());
            } else {
                let deck = choose|deck: Seq<Card>|
                    deck.to_multiset() == full_deck().to_multiset()
                    && g->Some_0@ == start(seats, gid, deck).0
                    && out@ == old(out)@ + join_notices(seats) + start(seats, gid, deck).1;
                assert(add_bot(old(self)@, bot.name, deck).0 == self@);
                assert(out@ =~= old(out)@ + add_bot(old(self)@, bot.name, deck).1);
                lemma_add_bot_ids(old(self)@, bot.name, deck);
            }
        }
    }

    /// Renames a waiting player.
    pub fn login(&mut self, id: u32, name: String)
        requires
            lobby_wf(old(self)@),
        ensures
            lobby_wf(final(self)@),
            final(self).pending_game == old(self).pending_game,
            final(self)@ == login(old(self)@, id, name),
    {
        proof {
            lemma_login_ids(old(self)@, id, name);
        }
        match self.find_player(id) {
            Some(k) => {
                let p = self.players.remove(k);
                let renamed = match p {
                    Peer::Human(h) => Peer::Human(Player { id: h.id, name }),
                    Peer::Bot(n) => Peer::Bot(NPC { id: n.id, name, msg_stack: n.msg_stack }),
                };
                self.players.insert(k, renamed);
                proof {
                    let old_p = old(self)@.players[k as int];
                    assert(renamed@ == PeerView { name, ..old_p });
                    assert(peer_views(self.players@) =~= old(self)@.players.update(
                        k as int,
                        PeerView { name, ..old_p },
                    ));
                    assert(self@.games =~= old(self)@.games);
                }
            },
            None => {},
        }
    }

    fn append_players(&mut self, ps: Vec<Peer>)
        ensures
            final(self)@.players == old(self)@.players + peer_views(ps@),
            final(self).games == old(self).games,
            final(self).pending_game == old(self).pending_game,
            final(self).player_count == old(self).player_count,
            final(self).game_count == old(self).game_count,
    {
        let mut ps = ps;
        let ghost added = peer_views(ps@);
        self.players.append(&mut ps);
        proof {
            assert(peer_views(self.players@) =~= old(self)@.players + added);
        }
    }

    fn retain_without(&mut self, id: u32)
        ensures
            final(self)@.players == without(old(self)@.players, id),
            final(self).games == old(self).games,
            final(self).pending_game == old(self).pending_game,
            final(self).player_count == old(self).player_count,
            final(self).game_count == old(self).game_count,
    {
        let mut all: Vec<Peer> = Vec::new();
        std::mem::swap(&mut self.players, &mut all);
        self.players = without_vec(all, id);
    }

    /// Takes a peer out of the lobby: off its seat, off its table, out of
    /// the waiting players.
    pub fn remove_player(&mut self, id: u32, out: &mut Vec<Outgoing>)
        requires
            lobby_wf(old(self)@),
            old(self).pending_game.wf(),
        ensures
            lobby_wf(final(self)@),
            final(self).pending_game.wf(),
            final(self)@ == disconnect(old(self)@, id).0,
            final(out)@ == old(out)@ + disconnect(old(self)@, id).1,
    {
        proof {
            lemma_disconnect_ids(old(self)@, id);
        }
        self.pending_game.try_remove_player(id, out);
        let ghost l1 = self@;
        proof {
            assert(l1.games == old(self)@.games);
            assert(l1.pending.len() < 3);
        }
        match self.find_game(id) {
            Some(k) => {
                let game = self.games.remove(k);
                let ghost seats = game@.seats;
                proof {
                    assert(self@.games =~= l1.games.remove(k as int));
                    assert(seats == l1.games[k as int].seats);
                    assert forall|j: int| 0 <= j < self@.games.len() implies game_wf(#[trigger] self@.games[j]) by {
                        if j < k {
                            assert(self@.games[j] == l1.games[j]);
                        } else {
                            assert(self@.games[j] == l1.games[j + 1]);
                        }
                    }
                }
                let peers = game.close();
                proof {
                    assert(peer_views(peers@) =~= seats);
                }
                let back = without_vec(peers, id);
                notify_back(&back, out);
                self.append_players(back);
                self.retain_without(id);
                proof {
                    assert(out@ =~= old(out)@ + disconnect(old(self)@, id).1);
                }
            },
            None => {
                self.retain_without(id);
            },
        }
    }

    /// Hands a peer's move to its table; a finished table is closed and its
    /// players wait in the lobby again.
    pub fn game_message(&mut self, id: u32, msg: Message, out: &mut Vec<Outgoing>)
        requires
            lobby_wf(old(self)@),
        ensures
            lobby_wf(final(self)@),
            final(self).pending_game == old(self).pending_game,
            final(self)@ == play(old(self)@, id, msg).0,
            final(out)@ == old(out)@ + play(old(self)@, id, msg).1,
    {
        proof {
            lemma_play_ids(old(self)@, id, msg);
        }
        match self.find_game(id) {
            Some(k) => {
                let mut g = self.games.remove(k);
                proof {
                    assert(self@.games =~= old(self)@.games.remove(k as int));
                    assert(g@ == old(self)@.games[k as int]);
                }
                g.handle(id, msg, out);
                if g.is_over() {
                    let ghost gv = g@;
                    let peers = g.close();
                    proof {
                        assert(peer_views(peers@) =~= gv.seats);
                        assert forall|j: int| 0 <= j < self@.games.len() implies game_wf(#[trigger] self@.games[j]) by {
                            if j < k {
                                assert(self@.games[j] == old(self)@.games[j]);
                            } else {
                                assert(self@.games[j] == old(self)@.games[j + 1]);
                            }
                        }
                    }
                    self.append_players(peers);
                } else {
                    self.games.insert(k, g);
                    proof {
                        assert(self@.games =~= old(self)@.games.update(k as int, g@));
                        assert forall|j: int| 0 <= j < self@.games.len() implies game_wf(#[trigger] self@.games[j]) by {
                            if j != k {
                                assert(self@.games[j] == old(self)@.games[j]);
                            }
                        }
                    }
                }
            },
            None => {
                proof {
                    assert(out@ =~= old(out)@ + Seq::<Outgoing>::empty());
                }
            },
        }
    }

    /// Carries out one lobby command.
    pub fn handle(&mut self, cmd: LobbyCommand, out: &mut Vec<Outgoing>)
        requires
            lobby_wf(old(self)@),
            old(self).pending_game.wf(),
        ensures
            lobby_wf(final(self)@),
            final(self).pending_game.wf(),
            match cmd {
                LobbyCommand::JoinGame { player_id } => exists|deck: Seq<Card>|
                    deck.to_multiset() == full_deck().to_multiset() && final(self)@ == join(
                        old(self)@,
                        player_id,
                        deck,
                    ).0 && final(out)@ == old(out)@ + join(old(self)@, player_id, deck).1,
                LobbyCommand::Disconnect { player_id } => final(self)@ == disconnect(
                    old(self)@,
                    player_id,
                ).0 && final(out)@ == old(out)@ + disconnect(old(self)@, player_id).1,
                LobbyCommand::Login { player_id, name } => final(self)@ == login(
                    old(self)@,
                    player_id,
                    name,
                ) && final(out)@ == old(out)@,
                LobbyCommand::AddNPC => (old(self).player_count == u32::MAX ==> final(self)@ == old(
                    self,
                )@ && final(out)@ == old(out)@) && (old(self).player_count < u32::MAX ==> exists|
                    bot_name: String,
                    deck: Seq<Card>,
                |
                    bot_name@ == "NPC"@ && deck.to_multiset() == full_deck().to_multiset() && final(self)@
                        == add_bot(old(self)@, bot_name, deck).0 && final(out)@ == old(out)@ + add_bot(
                        old(self)@,
                        bot_name,
                        deck,
                    ).1),
            },
    {
        match cmd {
            LobbyCommand::JoinGame { player_id } => self.join_game(player_id, out),
            LobbyCommand::Disconnect { player_id } => self.remove_player(player_id, out),
            LobbyCommand::Login { player_id, name } => self.login(player_id, name),
            LobbyCommand::AddNPC => self.add_npc(out),
        }
    }
}

/// Players without `b` are those of `a` without it, then those of `b`.
pub proof fn lemma_without_append(a: Seq<PeerView>, b: Seq<PeerView>, id: u32)
    ensures
        without(a + b, id) == without(a, id) + without(b, id),
    decreases b.len(),
{
    if b.len() == 0 {
        assert(a + b =~= a);
        assert(without(a, id) + without(b, id) =~= without(a, id));
    } else {
        lemma_without_append(a, b.drop_last(), id);
        assert((a + b).drop_last() =~= a + b.drop_last());
        assert((a + b).last() == b.last());
        assert(without(a + b, id) =~= without(a, id) + without(b, id));
    }
}

/// The peers of a row but those with this id, in order.
fn without_vec(ps: Vec<Peer>, id: u32) -> (r: Vec<Peer>)
    ensures
        peer_views(r@) == without(peer_views(ps@), id),
{
    let ghost all = peer_views(ps@);
    let mut ps = ps;
    let mut r: Vec<Peer> = Vec::new();
    let mut i: usize = 0;
    let n = ps.len();
    proof {
        assert(all.len() == n);
        assert(all.skip(0) =~= all);
        assert(all.take(0) =~= Seq::<PeerView>::empty());
        assert(peer_views(r@) =~= Seq::<PeerView>::empty());
    }
    while ps.len() > 0
        invariant
            i + ps@.len() == all.len(),
            all.len() <= usize::MAX,
            peer_views(ps@) == all.skip(i as int),
            peer_views(r@) == without(all.take(i as int), id),
        decreases ps@.len(),
    {
        let ghost old_ps = ps@;
        let p = ps.remove(0);
        proof {
            assert(peer_views(old_ps)[0] == old_ps[0]@);
            assert(all.skip(i as int)[0] == all[i as int]);
            assert(p@ == all[i as int]);
            assert(ps@ =~= old_ps.subrange(1, old_ps.len() as int));
            assert forall|j: int| 0 <= j < ps@.len() implies #[trigger] peer_views(ps@)[j] == all.skip(
                i + 1,
            )[j] by {
                assert(ps@[j] == old_ps[j + 1]);
                assert(peer_views(old_ps)[j + 1] == old_ps[j + 1]@);
                assert(all.skip(i as int)[j + 1] == all[i + 1 + j]);
            }
            assert(peer_views(ps@) =~= all.skip(i + 1));
            assert(all.take(i + 1).drop_last() =~= all.take(i as int));
        }
        let ghost before = r@;
        if p.id() != id {
            r.push(p);
        }
        proof {
            assert(peer_views(r@) =~= without(all.take(i + 1), id));
        }
        i = i + 1;
    }
    proof {
        assert(all.take(i as int) =~= all);
    }
    r
}

/// Tells each networked peer of the row to return to the lobby.
fn notify_back(ps: &Vec<Peer>, out: &mut Vec<Outgoing>)
    ensures
        final(out)@ == old(out)@ + back_notices(peer_views(ps@)),
{
    let ghost pv = peer_views(ps@);
    let mut i: usize = 0;
    while i < ps.len()
        invariant
            i <= ps@.len(),
            pv == peer_views(ps@),
            out@ == old(out)@ + back_notices(pv.take(i as int)),
        decreases ps@.len() - i,
    {
        let ghost before = out@;
        ps[i].send_message(Message::BackToLobby, out);
        proof {
            assert(pv.take(i + 1).drop_last() =~= pv.take(i as int));
            assert(pv[i as int] == ps@[i as int]@);
            assert(out@ =~= old(out)@ + back_notices(pv.take(i + 1)));
        }
        i = i + 1;
    }
    proof {
        assert(pv.take(i as int) =~= pv);
    }
}

} // verus!

verus! {

proof fn lemma_first_at(s: Seq<u32>, k: int, x: u32)
    requires
        0 <= k < s.len(),
        s[k] == x,
        forall|j: int| 0 <= j < k ==> s[j] != x,
    ensures
        s.index_of_first(x) == Some(k),
{
    s.index_of_first_ensures(x);
    assert(s.contains(x));
    let i = s.index_of_first(x)->Some_0;
    if i < k {
        assert(s[i] != x);
    }
}

/// Three players who connect one after another get the ids that follow each
/// other from the counter on, each hears its own id, and once all three have
/// asked for a seat every one of them has heard the same seating: the three
/// of them, in the order in which they sat down. Their table then starts.
pub proof fn lemma_three_players_seated(
    l0: LobbyView,
    n1: String,
    n2: String,
    n3: String,
    deck: Seq<Card>,
)
    requires
        lobby_wf(l0),
        l0.pending.len() == 0,
        l0.player_count + 3 <= u32::MAX,
    ensures
        ({
            let (l1, r1, o1) = connect(l0, n1);
            let (l2, r2, o2) = connect(l1, n2);
            let (l3, r3, o3) = connect(l2, n3);
            let i1 = l0.player_count;
            let i2 = (i1 + 1) as u32;
            let i3 = (i1 + 2) as u32;
            let (l4, o4) = join(l3, i1, deck);
            let (l5, o5) = join(l4, i2, deck);
            let (l6, o6) = join(l5, i3, deck);
            let seats = seq![
                human(i1, n1),
                human(i2, n2),
                human(i3, n3),
            ];
            &&& r1 == Some(i1) && r2 == Some(i2) && r3 == Some(i3)
            &&& o1 == seq![Outgoing { to: i1, msg: Message::ConfirmJoin(i1) }]
            &&& o2 == seq![Outgoing { to: i2, msg: Message::ConfirmJoin(i2) }]
            &&& o3 == seq![Outgoing { to: i3, msg: Message::ConfirmJoin(i3) }]
            &&& o6 == Seq::new(
                9,
                |x: int| Outgoing { to: seats[x % 3].id, msg: crate::pending_game::join_message(seats[x / 3]) },
            ) + start(seats, l0.game_count, deck).1
            &&& l6.pending == Seq::<PeerView>::empty()
            &&& l6.games == l0.games.push(start(seats, l0.game_count, deck).0)
            &&& l6.players == l0.players
        }),
{
    let (l1, r1, o1) = connect(l0, n1);
    let (l2, r2, o2) = connect(l1, n2);
    let (l3, r3, o3) = connect(l2, n3);
    let i1 = l0.player_count;
    let i2 = (i1 + 1) as u32;
    let i3 = (i1 + 2) as u32;
    let pa = human(i1, n1);
    let pb = human(i2, n2);
    let pc = human(i3, n3);
    let base = l0.players;
    let n = base.len() as int;
    assert forall|j: int| 0 <= j < n implies #[trigger] base[j].id < i1 by {
        assert(crate::ownership::lobby_ids(l0)[j] == base[j].id);
    }
    assert(l3.players == base.push(pa).push(pb).push(pc));
    let ids3 = peer_ids(l3.players);
    assert forall|j: int| 0 <= j < n implies ids3[j] != i1 by {
        assert(base[j].id < i1);
    }
    lemma_first_at(ids3, n, i1);
    let (l4, o4) = join(l3, i1, deck);
    assert(l4.players =~= base.push(pb).push(pc));
    let ids4 = peer_ids(l4.players);
    assert forall|j: int| 0 <= j < n implies ids4[j] != i2 by {
        assert(base[j].id < i1);
    }
    lemma_first_at(ids4, n, i2);
    let (l5, o5) = join(l4, i2, deck);
    assert(l5.players =~= base.push(pc));
    let ids5 = peer_ids(l5.players);
    assert forall|j: int| 0 <= j < n implies ids5[j] != i3 by {
        assert(base[j].id < i1);
    }
    lemma_first_at(ids5, n, i3);
    let (l6, o6) = join(l5, i3, deck);
    assert(l6.players =~= base);
    let seats = seq![pa, pb, pc];
    assert(l5.pending.push(pc) =~= seats);
    let expected = Seq::new(
        9,
        |x: int| Outgoing { to: seats[x % 3].id, msg: crate::pending_game::join_message(seats[x / 3]) },
    );
    assert(join_notices(seats) =~= expected) by {
        assert(seats.drop_last().drop_last().drop_last() =~= Seq::<PeerView>::empty());
        reveal_with_fuel(send_all, 4);
        reveal_with_fuel(join_notices_upto, 4);
    }
}


/// The players that remain once those with an id are filtered out hold
/// every other player of the row and none with that id.
pub proof fn lemma_without_members(ps: Seq<PeerView>, id: u32)
    ensures
        forall|p: PeerView| #[trigger] without(ps, id).contains(p) <==> (ps.contains(p) && p.id != id),
    decreases ps.len(),
{
    if ps.len() > 0 {
        let d = ps.drop_last();
        lemma_without_members(d, id);
        let w = without(d, id);
        let tail = if ps.last().id != id {
            seq![ps.last()]
        } else {
            seq![]
        };
        assert(without(ps, id) == w + tail);
        assert forall|p: PeerView| #[trigger] without(ps, id).contains(p) <==> (ps.contains(p) && p.id != id) by {
            let all = w + tail;
            if all.contains(p) {
                let k = choose|k: int| 0 <= k < all.len() && all[k] == p;
                if k < w.len() {
                    assert(w[k] == p);
                    assert(w.contains(p));
                    assert(d.contains(p) && p.id != id);
                    let j = choose|j: int| 0 <= j < d.len() && d[j] == p;
                    assert(ps[j] == p);
                } else {
                    assert(tail[k - w.len()] == p);
                    assert(ps[ps.len() - 1] == p);
                }
            }
            if ps.contains(p) && p.id != id {
                let j = choose|j: int| 0 <= j < ps.len() && ps[j] == p;
                if j < ps.len() - 1 {
                    assert(d[j] == p);
                    assert(d.contains(p));
                    assert(w.contains(p));
                    let k = choose|k: int| 0 <= k < w.len() && w[k] == p;
                    assert(all[k] == p);
                } else {
                    assert(all[w.len() as int] == p);
                }
            }
        }
    }
}

/// Every message of `send_all` is the one it was given.
pub proof fn lemma_send_all_message(peers: Seq<PeerView>, m: Message)
    ensures
        forall|i: int| 0 <= i < send_all(peers, m).len() ==> #[trigger] send_all(peers, m)[i].msg == m,
    decreases peers.len(),
{
    if peers.len() > 0 {
        lemma_send_all_message(peers.drop_last(), m);
    }
}

/// A player who leaves while seated at the next table, before it starts,
/// loses its seat (the seats after it move up) and its place in the lobby;
/// every other waiting player stays, with its id, and no table changes.
pub proof fn lemma_leave_pending(l: LobbyView, id: u32)
    requires
        lobby_wf(l),
        peer_ids(l.pending).contains(id),
        game_index(l.games, id) is None,
    ensures
        ({
            let (l2, o) = disconnect(l, id);
            &&& l2.pending == l.pending.remove(peer_ids(l.pending).index_of_first(id)->Some_0)
            &&& l2.pending.len() == l.pending.len() - 1
            &&& !peer_ids(l2.pending).contains(id)
            &&& !peer_ids(l2.players).contains(id)
            &&& forall|p: PeerView| l.players.contains(p) && p.id != id ==> #[trigger] l2.players.contains(p)
            &&& l2.games == l.games
            &&& l2.player_count == l.player_count
            &&& forall|i: int| 0 <= i < o.len() ==> #[trigger] o[i].msg == Message::PlayerLeave(id)
        }),
{
    peer_ids(l.pending).index_of_first_ensures(id);
    let (l2, o) = disconnect(l, id);
    crate::ownership::lemma_disconnect_clears(l, id);
    lemma_without_members(l.players, id);
    let k = peer_ids(l.pending).index_of_first(id)->Some_0;
    lemma_send_all_message(l.pending.remove(k), Message::PlayerLeave(id));
    if peer_ids(l2.players).contains(id) {
        let j = choose|j: int| 0 <= j < l2.players.len() && peer_ids(l2.players)[j] == id;
        assert(l2.players.contains(l2.players[j]));
    }
}

/// A player who leaves during a game ends that game at once: the table is
/// gone with its round (no result is announced), every other peer of the
/// table waits in the lobby again, and each networked one among them is told
/// to return to the lobby.
pub proof fn lemma_leave_game(l: LobbyView, id: u32)
    requires
        lobby_wf(l),
        game_index(l.games, id) is Some,
    ensures
        ({
            let (l2, o) = disconnect(l, id);
            let k = game_index(l.games, id)->Some_0;
            let back = without(l.games[k].seats, id);
            &&& l2.games == l.games.remove(k)
            &&& l2.players == without(l.players, id) + back
            &&& back.len() == 2
            &&& !peer_ids(l2.players).contains(id)
            &&& forall|i: int| 0 <= i < back.len() ==> #[trigger] back[i].id != id
            &&& o.subrange(o.len() - back_notices(back).len(), o.len() as int) == back_notices(back)
            &&& forall|i: int| 0 <= i < o.len() ==> !(#[trigger] o[i].msg is GameWon)
        }),
{
    let (l2, o) = disconnect(l, id);
    let k = game_index(l.games, id)->Some_0;
    let back = without(l.games[k].seats, id);
    let rest = match peer_ids(l.pending).index_of_first(id) {
        Some(j) => l.pending.remove(j),
        None => l.pending,
    };
    lemma_without_append(l.players, back, id);
    lemma_without_members(l.games[k].seats, id);
    crate::ownership::lemma_disconnect_clears(l, id);
    let marks = l.games.map_values(|g: GameView| seat_of(g.seats, id) is Some);
    marks.index_of_first_ensures(true);
    crate::ownership::lemma_table_has(l.games, k, id);
    crate::ownership::lemma_id_once(l, id);
    crate::ownership::lemma_lobby_bag(l);
    crate::ownership::lemma_without_len(l.games[k].seats, id);
    assert forall|i: int| 0 <= i < back.len() implies #[trigger] back[i].id != id by {
        assert(back.contains(back[i]));
    }
    lemma_without_idempotent(l.games[k].seats, id);
    lemma_send_all_message(rest, Message::PlayerLeave(id));
    let o1 = send_all(rest, Message::PlayerLeave(id));
    assert(without(back, id) == back);
    assert(l2.players == without(l.players + back, id));
    assert(l2.players == without(l.players, id) + back);
    assert(l2.games == l.games.remove(k));
    assert(o == o1 + back_notices(back));
    assert(o.subrange(o.len() - back_notices(back).len(), o.len() as int) =~= back_notices(back));
    lemma_send_all_message(back, Message::BackToLobby);
    assert forall|i: int| 0 <= i < o.len() implies !(#[trigger] o[i].msg is GameWon) by {
        if i < o1.len() {
            assert(o[i] == o1[i]);
        } else {
            assert(o[i] == back_notices(back)[i - o1.len()]);
        }
    }
}

/// Filtering twice by the same id filters once.
pub proof fn lemma_without_idempotent(ps: Seq<PeerView>, id: u32)
    ensures
        without(without(ps, id), id) == without(ps, id),
    decreases ps.len(),
{
    if ps.len() > 0 {
        lemma_without_idempotent(ps.drop_last(), id);
        let w = without(ps.drop_last(), id);
        if ps.last().id != id {
            lemma_without_append(w, seq![ps.last()], id);
            assert(without(seq![ps.last()], id) =~= seq![ps.last()]) by {
                assert(seq![ps.last()].drop_last() =~= Seq::<PeerView>::empty());
                reveal_with_fuel(without, 2);
                assert(without(Seq::<PeerView>::empty(), id) =~= Seq::<PeerView>::empty());
            }
            assert(without(ps, id) == w + seq![ps.last()]);
        } else {
            assert(without(ps, id) =~= w);
        }
    }
}

} // verus!

verus! {

/// Ids come from a counter that no request turns back: a new connection or
/// bot takes the counter's value and moves it past it, every other request
/// leaves it as it was. So no id is handed out twice.
pub proof fn lemma_ids_never_repeat(
    l: LobbyView,
    name: String,
    id: u32,
    msg: Message,
    deck: Seq<Card>,
)
    ensures
        connect(l, name).1 matches Some(i) ==> i == l.player_count && connect(l, name).0.player_count
            == i + 1,
        connect(l, name).0.player_count >= l.player_count,
        l.player_count < u32::MAX ==> add_bot(l, name, deck).0.player_count == l.player_count + 1,
        add_bot(l, name, deck).0.player_count >= l.player_count,
        join(l, id, deck).0.player_count == l.player_count,
        disconnect(l, id).0.player_count == l.player_count,
        login(l, id, name).player_count == l.player_count,
        play(l, id, msg).0.player_count == l.player_count,
{
}

} // verus!
