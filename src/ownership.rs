use vstd::prelude::*;
use vstd::multiset::Multiset;
use crate::knows_skat::PeerView;
use crate::game::{GameView, same_peers};
use crate::pending_game::peer_ids;
use crate::lobby::{LobbyView, without};

verus! {

broadcast use {vstd::seq_lib::group_to_multiset_ensures, vstd::multiset::group_multiset_axioms};

/// The ids of the peers at every table, table by table.
pub open spec fn table_ids(games: Seq<GameView>) -> Seq<u32>
    decreases games.len(),
{
    if games.len() == 0 {
        seq![]
    } else {
        table_ids(games.drop_last()) + peer_ids(games.last().seats)
    }
}

/// Every id the lobby holds: waiting players, seats, tables.
pub open spec fn lobby_ids(l: LobbyView) -> Seq<u32> {
    peer_ids(l.players) + peer_ids(l.pending) + table_ids(l.games)
}

/// Each peer sits in exactly one place, and every id came from the counter.
pub open spec fn ids_ok(l: LobbyView) -> bool {
    &&& lobby_ids(l).no_duplicates()
    &&& forall|i: int| 0 <= i < lobby_ids(l).len() ==> #[trigger] lobby_ids(l)[i] < l.player_count
}

/// Every id occurs in `a` at most as often as in `b`.
pub open spec fn sub_bag(a: Multiset<u32>, b: Multiset<u32>) -> bool {
    forall|x: u32| #[trigger] a.count(x) <= b.count(x)
}

pub open spec fn bag(s: Seq<u32>) -> Multiset<u32> {
    s.to_multiset()
}

pub proof fn lemma_bag_add(a: Seq<u32>, b: Seq<u32>)
    ensures
        bag(a + b) == bag(a).add(bag(b)),
{
    vstd::seq_lib::lemma_multiset_commutative(a, b);
}

pub proof fn lemma_lobby_bag(l: LobbyView)
    ensures
        bag(lobby_ids(l)) == bag(peer_ids(l.players)).add(bag(peer_ids(l.pending))).add(
            bag(table_ids(l.games)),
        ),
{
    lemma_bag_add(peer_ids(l.players), peer_ids(l.pending));
    lemma_bag_add(peer_ids(l.players) + peer_ids(l.pending), table_ids(l.games));
}

/// A lobby whose ids are a part of those of a sound lobby, under a counter
/// that did not go back, is sound.
pub proof fn lemma_ids_shrink(l: LobbyView, l2: LobbyView)
    requires
        ids_ok(l),
        sub_bag(bag(lobby_ids(l2)), bag(lobby_ids(l))),
        l2.player_count >= l.player_count,
    ensures
        ids_ok(l2),
{
    let s = lobby_ids(l);
    let s2 = lobby_ids(l2);
    s.lemma_multiset_has_no_duplicates();
    s.to_multiset_ensures();
    s2.to_multiset_ensures();
    assert forall|x: u32| s2.to_multiset().contains(x) implies s2.to_multiset().count(x) == 1 by {
        assert(bag(s2).count(x) <= bag(s).count(x));
    }
    s2.lemma_multiset_has_no_duplicates_conv();
    assert forall|i: int| 0 <= i < s2.len() implies #[trigger] s2[i] < l2.player_count by {
        let x = s2[i];
        assert(s2.contains(x));
        assert(bag(s2).count(x) <= bag(s).count(x));
        assert(s.contains(x));
        let j = choose|j: int| 0 <= j < s.len() && s[j] == x;
        assert(s[j] < l.player_count);
    }
}

/// A sound lobby that takes in the next id of its counter, and moves the
/// counter past it, stays sound.
pub proof fn lemma_ids_grow(l: LobbyView, l2: LobbyView)
    requires
        ids_ok(l),
        l.player_count < u32::MAX,
        l2.player_count == l.player_count + 1,
        sub_bag(bag(lobby_ids(l2)), bag(lobby_ids(l)).insert(l.player_count)),
    ensures
        ids_ok(l2),
{
    let c = l.player_count;
    let s = lobby_ids(l);
    let s2 = lobby_ids(l2);
    s.lemma_multiset_has_no_duplicates();
    s.to_multiset_ensures();
    s2.to_multiset_ensures();
    assert(!s.contains(c)) by {
        if s.contains(c) {
            let j = choose|j: int| 0 <= j < s.len() && s[j] == c;
            assert(s[j] < c);
        }
    }
    assert forall|x: u32| s2.to_multiset().contains(x) implies s2.to_multiset().count(x) == 1 by {
        assert(bag(s2).count(x) <= bag(s).insert(c).count(x));
        if x == c {
            assert(bag(s).count(c) == 0);
        }
    }
    s2.lemma_multiset_has_no_duplicates_conv();
    assert forall|i: int| 0 <= i < s2.len() implies #[trigger] s2[i] < l2.player_count by {
        let x = s2[i];
        assert(s2.contains(x));
        assert(bag(s2).count(x) <= bag(s).insert(c).count(x));
        if x != c {
            assert(s.contains(x));
            let j = choose|j: int| 0 <= j < s.len() && s[j] == x;
            assert(s[j] < c);
        }
    }
}

pub proof fn lemma_table_ids_push(games: Seq<GameView>, g: GameView)
    ensures
        table_ids(games.push(g)) == table_ids(games) + peer_ids(g.seats),
{
    assert(games.push(g).drop_last() =~= games);
}

pub proof fn lemma_table_ids_remove(games: Seq<GameView>, k: int)
    requires
        0 <= k < games.len(),
    ensures
        bag(table_ids(games)) == bag(table_ids(games.remove(k))).add(bag(peer_ids(games[k].seats))),
    decreases games.len(),
{
    let n = games.len() - 1;
    if k == n {
        assert(games.remove(k) =~= games.drop_last());
        lemma_bag_add(table_ids(games.drop_last()), peer_ids(games.last().seats));
    } else {
        lemma_table_ids_remove(games.drop_last(), k);
        assert(games.remove(k).drop_last() =~= games.drop_last().remove(k));
        assert(games.remove(k).last() == games.last());
        lemma_bag_add(table_ids(games.drop_last()), peer_ids(games.last().seats));
        lemma_bag_add(table_ids(games.remove(k).drop_last()), peer_ids(games.last().seats));
        assert(bag(table_ids(games)) =~= bag(table_ids(games.remove(k))).add(bag(peer_ids(games[k].seats))));
    }
}

pub proof fn lemma_same_peers_ids(a: Seq<PeerView>, b: Seq<PeerView>)
    requires
        same_peers(a, b),
    ensures
        peer_ids(a) == peer_ids(b),
{
    assert(peer_ids(a) =~= peer_ids(b));
}

pub proof fn lemma_table_ids_update(games: Seq<GameView>, k: int, g: GameView)
    requires
        0 <= k < games.len(),
        peer_ids(g.seats) == peer_ids(games[k].seats),
    ensures
        table_ids(games.update(k, g)) == table_ids(games),
    decreases games.len(),
{
    let n = games.len() - 1;
    if k == n {
        assert(games.update(k, g).drop_last() =~= games.drop_last());
    } else {
        lemma_table_ids_update(games.drop_last(), k, g);
        assert(games.update(k, g).drop_last() =~= games.drop_last().update(k, g));
    }
}

pub proof fn lemma_peer_ids_add(a: Seq<PeerView>, b: Seq<PeerView>)
    ensures
        peer_ids(a + b) == peer_ids(a) + peer_ids(b),
{
    assert(peer_ids(a + b) =~= peer_ids(a) + peer_ids(b));
}

pub proof fn lemma_without_ids(ps: Seq<PeerView>, id: u32)
    ensures
        sub_bag(bag(peer_ids(without(ps, id))), bag(peer_ids(ps))),
    decreases ps.len(),
{
    if ps.len() > 0 {
        let d = ps.drop_last();
        lemma_without_ids(d, id);
        let tail = if ps.last().id != id {
            seq![ps.last()]
        } else {
            seq![]
        };
        lemma_peer_ids_add(without(d, id), tail);
        lemma_bag_add(peer_ids(without(d, id)), peer_ids(tail));
        assert(peer_ids(ps) =~= peer_ids(d).push(ps.last().id));
        if ps.last().id != id {
            assert(peer_ids(tail) =~= Seq::<u32>::empty().push(ps.last().id));
        } else {
            assert(peer_ids(tail) =~= Seq::<u32>::empty());
        }
    }
}

} // verus!

verus! {

use crate::deck::full_deck;
use crate::proto::{Card, Message};
use crate::game::{start, game_step, seat_of, lemma_start_keeps_peers, lemma_game_step_keeps_peers};
use crate::lobby::{
    lobby_wf, connect, seat, join, add_bot, login, disconnect, play, settle, round_over, game_index,
};

proof fn lemma_peer_ids_push(s: Seq<PeerView>, p: PeerView)
    ensures
        peer_ids(s.push(p)) == peer_ids(s).push(p.id),
{
    assert(peer_ids(s.push(p)) =~= peer_ids(s).push(p.id));
}

proof fn lemma_peer_ids_remove(s: Seq<PeerView>, k: int)
    requires
        0 <= k < s.len(),
    ensures
        bag(peer_ids(s.remove(k))) == bag(peer_ids(s)).remove(s[k].id),
{
    assert(peer_ids(s.remove(k)) =~= peer_ids(s).remove(k));
    peer_ids(s).to_multiset_ensures();
}

proof fn lemma_player_ids_remove(s: Seq<PeerView>, k: int)
    requires
        0 <= k < s.len(),
    ensures
        bag(peer_ids(s.remove(k))) == bag(peer_ids(s)).remove(s[k].id),
{
    assert(peer_ids(s.remove(k)) =~= peer_ids(s).remove(k));
    peer_ids(s).to_multiset_ensures();
}

/// Seating a peer adds its id and nothing else (a table closed at once may
/// drop its bots).
proof fn lemma_seat_ids(l: LobbyView, peer: PeerView, deck: Seq<Card>)
    requires
        l.pending.len() < 3,
    ensures
        sub_bag(bag(lobby_ids(seat(l, peer, deck).0)), bag(lobby_ids(l)).insert(peer.id)),
        seat(l, peer, deck).0.player_count == l.player_count,
{
    let seats = l.pending.push(peer);
    let l2 = seat(l, peer, deck).0;
    lemma_lobby_bag(l);
    lemma_lobby_bag(l2);
    lemma_peer_ids_push(l.pending, peer);
    peer_ids(l.pending).to_multiset_ensures();
    if seats.len() >= 3 {
        let g = start(seats, l.game_count, deck).0;
        lemma_start_keeps_peers(seats, l.game_count, deck);
        lemma_same_peers_ids(g.seats, seats);
        assert(peer_ids(seq![]) =~= Seq::<u32>::empty());
        if round_over(g) {
            lemma_peer_ids_add(l.players, g.seats);
            lemma_bag_add(peer_ids(l.players), peer_ids(g.seats));
        } else {
            lemma_table_ids_push(l.games, g);
            lemma_bag_add(table_ids(l.games), peer_ids(g.seats));
        }
    }
}

/// A new connection keeps every peer in exactly one place.
pub proof fn lemma_connect_ids(l: LobbyView, name: String)
    requires
        ids_ok(l),
    ensures
        ids_ok(connect(l, name).0),
{
    if l.player_count < u32::MAX {
        let l2 = connect(l, name).0;
        lemma_lobby_bag(l);
        lemma_lobby_bag(l2);
        assert(peer_ids(l2.players) =~= peer_ids(l.players).push(l.player_count));
        peer_ids(l.players).to_multiset_ensures();
        lemma_ids_grow(l, l2);
    }
}

/// Taking a seat keeps every peer in exactly one place.
pub proof fn lemma_join_ids(l: LobbyView, id: u32, deck: Seq<Card>)
    requires
        ids_ok(l),
        lobby_wf(l),
    ensures
        ids_ok(join(l, id, deck).0),
{
    peer_ids(l.players).index_of_first_ensures(id);
    match peer_ids(l.players).index_of_first(id) {
        Some(k) => {
            let l1 = LobbyView { players: l.players.remove(k), ..l };
            lemma_seat_ids(l1, l.players[k], deck);
            lemma_lobby_bag(l);
            lemma_lobby_bag(l1);
            lemma_player_ids_remove(l.players, k);
            assert(bag(lobby_ids(l1)).insert(id) =~= bag(lobby_ids(l)));
            lemma_ids_shrink(l, join(l, id, deck).0);
        },
        None => {},
    }
}

/// Seating a new bot keeps every peer in exactly one place.
pub proof fn lemma_add_bot_ids(l: LobbyView, bot_name: String, deck: Seq<Card>)
    requires
        ids_ok(l),
        lobby_wf(l),
    ensures
        ids_ok(add_bot(l, bot_name, deck).0),
{
    if l.player_count < u32::MAX {
        let l1 = LobbyView { player_count: (l.player_count + 1) as u32, ..l };
        let bot = PeerView { id: l.player_count, name: bot_name, remote: false, script: crate::knows_skat::npc_script() };
        lemma_seat_ids(l1, bot, deck);
        assert(lobby_ids(l1) == lobby_ids(l));
        lemma_ids_grow(l, add_bot(l, bot_name, deck).0);
    }
}

/// Renaming keeps every peer in exactly one place.
pub proof fn lemma_login_ids(l: LobbyView, id: u32, name: String)
    requires
        ids_ok(l),
    ensures
        ids_ok(login(l, id, name)),
{
    peer_ids(l.players).index_of_first_ensures(id);
    match peer_ids(l.players).index_of_first(id) {
        Some(k) => {
            assert(peer_ids(login(l, id, name).players) =~= peer_ids(l.players));
            assert(lobby_ids(login(l, id, name)) == lobby_ids(l));
        },
        None => {},
    }
}

/// A departure keeps every peer in exactly one place.
pub proof fn lemma_disconnect_ids(l: LobbyView, id: u32)
    requires
        ids_ok(l),
    ensures
        ids_ok(disconnect(l, id).0),
{
    let l2 = disconnect(l, id).0;
    lemma_lobby_bag(l);
    lemma_lobby_bag(l2);
    peer_ids(l.pending).index_of_first_ensures(id);
    match peer_ids(l.pending).index_of_first(id) {
        Some(k) => {
            lemma_peer_ids_remove(l.pending, k);
        },
        None => {},
    }
    let marks = l.games.map_values(|g: GameView| seat_of(g.seats, id) is Some);
    marks.index_of_first_ensures(true);
    match game_index(l.games, id) {
        Some(k) => {
            let back = without(l.games[k].seats, id);
            lemma_table_ids_remove(l.games, k);
            lemma_without_ids(l.players + back, id);
            lemma_peer_ids_add(l.players, back);
            lemma_bag_add(peer_ids(l.players), peer_ids(back));
            lemma_without_ids(l.games[k].seats, id);
        },
        None => {
            lemma_without_ids(l.players, id);
        },
    }
    lemma_ids_shrink(l, l2);
}

/// A move at a table keeps every peer in exactly one place.
pub proof fn lemma_play_ids(l: LobbyView, id: u32, msg: Message)
    requires
        ids_ok(l),
        lobby_wf(l),
    ensures
        ids_ok(play(l, id, msg).0),
{
    let l2 = play(l, id, msg).0;
    let marks = l.games.map_values(|g: GameView| seat_of(g.seats, id) is Some);
    marks.index_of_first_ensures(true);
    match game_index(l.games, id) {
        Some(k) => {
            lemma_lobby_bag(l);
            lemma_lobby_bag(l2);
            let g = game_step(l.games[k], id, msg).0;
            assert(crate::game::game_wf(l.games[k]));
            lemma_game_step_keeps_peers(l.games[k], id, msg);
            lemma_same_peers_ids(g.seats, l.games[k].seats);
            if round_over(g) {
                lemma_table_ids_remove(l.games, k);
                lemma_peer_ids_add(l.players, g.seats);
                lemma_bag_add(peer_ids(l.players), peer_ids(g.seats));
            } else {
                lemma_table_ids_update(l.games, k, g);
            }
            lemma_ids_shrink(l, l2);
        },
        None => {},
    }
}

} // verus!

verus! {

use crate::game::game_wf;
use crate::lobby::{tables_wf, lemma_without_members};

/// In a sound lobby an id occurs at most once.
pub proof fn lemma_id_once(l: LobbyView, id: u32)
    requires
        ids_ok(l),
    ensures
        bag(lobby_ids(l)).count(id) <= 1,
{
    lobby_ids(l).lemma_multiset_has_no_duplicates();
    lobby_ids(l).to_multiset_ensures();
}

pub proof fn lemma_table_has(games: Seq<GameView>, j: int, id: u32)
    requires
        0 <= j < games.len(),
        seat_of(games[j].seats, id) is Some,
        game_wf(games[j]),
    ensures
        bag(table_ids(games)).count(id) >= bag(peer_ids(games[j].seats)).count(id),
        bag(peer_ids(games[j].seats)).count(id) >= 1,
{
    lemma_table_ids_remove(games, j);
    let s = games[j].seats;
    let k = seat_of(s, id)->Some_0;
    assert(peer_ids(s)[k as int] == id);
    peer_ids(s).to_multiset_ensures();
    assert(peer_ids(s).contains(id));
}

/// With no table holding an id, no table is found for it.
proof fn lemma_no_table(games: Seq<GameView>, id: u32)
    requires
        bag(table_ids(games)).count(id) == 0,
        forall|k: int| 0 <= k < games.len() ==> game_wf(#[trigger] games[k]),
    ensures
        game_index(games, id) is None,
{
    let marks = games.map_values(|g: GameView| seat_of(g.seats, id) is Some);
    marks.index_of_first_ensures(true);
    if game_index(games, id) is Some {
        let j = game_index(games, id)->Some_0;
        assert(marks[j]);
        lemma_table_has(games, j, id);
    }
}

proof fn lemma_without_absent(ps: Seq<PeerView>, id: u32)
    requires
        !peer_ids(ps).contains(id),
    ensures
        without(ps, id) == ps,
    decreases ps.len(),
{
    if ps.len() > 0 {
        let d = ps.drop_last();
        assert(!peer_ids(d).contains(id)) by {
            if peer_ids(d).contains(id) {
                let j = choose|j: int| 0 <= j < d.len() && peer_ids(d)[j] == id;
                assert(peer_ids(ps)[j] == id);
            }
        }
        lemma_without_absent(d, id);
        assert(peer_ids(ps)[ps.len() - 1] == id ==> peer_ids(ps).contains(id));
        assert(ps =~= d + seq![ps.last()]);
    }
}

/// No player with the id is left once the id is filtered out.
pub proof fn lemma_without_gone(ps: Seq<PeerView>, id: u32)
    ensures
        !peer_ids(without(ps, id)).contains(id),
{
    lemma_without_members(ps, id);
    let w = without(ps, id);
    if peer_ids(w).contains(id) {
        let j = choose|j: int| 0 <= j < w.len() && peer_ids(w)[j] == id;
        assert(w.contains(w[j]));
    }
}

/// After a departure the id is nowhere in the lobby: not waiting, not
/// seated, at no table.
pub proof fn lemma_disconnect_clears(l: LobbyView, id: u32)
    requires
        lobby_wf(l),
    ensures
        ({
            let l2 = disconnect(l, id).0;
            &&& !peer_ids(l2.players).contains(id)
            &&& !peer_ids(l2.pending).contains(id)
            &&& game_index(l2.games, id) is None
        }),
{
    let l2 = disconnect(l, id).0;
    lemma_id_once(l, id);
    lemma_lobby_bag(l);
    lemma_disconnect_ids(l, id);
    assert(tables_wf(l2)) by {
        let marks = l.games.map_values(|g: GameView| seat_of(g.seats, id) is Some);
        marks.index_of_first_ensures(true);
        if game_index(l.games, id) is Some {
            let k = game_index(l.games, id)->Some_0;
            assert forall|j: int| 0 <= j < l2.games.len() implies game_wf(#[trigger] l2.games[j]) by {
                if j < k {
                    assert(l2.games[j] == l.games[j]);
                } else {
                    assert(l2.games[j] == l.games[j + 1]);
                }
            }
        }
        peer_ids(l.pending).index_of_first_ensures(id);
    }
    let cp = bag(peer_ids(l.players)).count(id);
    let cs = bag(peer_ids(l.pending)).count(id);
    let ct = bag(table_ids(l.games)).count(id);
    assert(cp + cs + ct <= 1);
    peer_ids(l.pending).index_of_first_ensures(id);
    peer_ids(l.pending).to_multiset_ensures();
    peer_ids(l2.pending).to_multiset_ensures();
    let marks = l.games.map_values(|g: GameView| seat_of(g.seats, id) is Some);
    marks.index_of_first_ensures(true);
    match game_index(l.games, id) {
        Some(k) => {
            let back = without(l.games[k].seats, id);
            lemma_table_has(l.games, k, id);
            lemma_table_ids_remove(l.games, k);
            assert(cs == 0);
            assert(!peer_ids(l.pending).contains(id));
            assert(l2.pending == l.pending);
            assert(bag(table_ids(l2.games)).count(id) == 0);
            lemma_without_gone(l.players + back, id);
            lemma_no_table(l2.games, id);
        },
        None => {
            match peer_ids(l.pending).index_of_first(id) {
                Some(k) => {
                    lemma_peer_ids_remove(l.pending, k);
                    assert(bag(peer_ids(l2.pending)).count(id) == 0);
                },
                None => {},
            }
            lemma_without_gone(l.players, id);
        },
    }
}

/// Leaving twice is leaving once: the second departure changes nothing and
/// only repeats the leave notice to the seated peers.
pub proof fn lemma_disconnect_twice(l: LobbyView, id: u32)
    requires
        lobby_wf(l),
    ensures
        disconnect(disconnect(l, id).0, id).0 == disconnect(l, id).0,
{
    let l2 = disconnect(l, id).0;
    lemma_disconnect_clears(l, id);
    peer_ids(l2.pending).index_of_first_ensures(id);
    lemma_without_absent(l2.players, id);
}

} // verus!

verus! {

/// Filtering an id out of a row removes each of its occurrences.
pub proof fn lemma_without_len(s: Seq<PeerView>, id: u32)
    ensures
        without(s, id).len() + bag(peer_ids(s)).count(id) == s.len(),
    decreases s.len(),
{
    if s.len() > 0 {
        let d = s.drop_last();
        lemma_without_len(d, id);
        assert(peer_ids(s) =~= peer_ids(d).push(s.last().id));
    } else {
        assert(peer_ids(s) =~= Seq::<u32>::empty());
    }
}

} // verus!
