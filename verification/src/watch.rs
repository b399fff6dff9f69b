//! The watch page: the games listed from the watch socket and the
//! position each of them shows.
//!
//! Positions are held per game id, as a list in which no id comes twice; a
//! game whose position is not known shows the starting position.

use vstd::prelude::*;
use crate::game::same_id;
use crate::messages::{WatchGameSummary, WatchServerMessage};
use crate::position::{normalized_fen, start_fen, Position};
use crate::text::{nat_text, push_nat, push_str, string_of};

verus! {

/// The position of `id` in `ps`: the last entry for it, if any.
pub open spec fn position_in(ps: Seq<(uuid::Uuid, Seq<char>)>, id: uuid::Uuid) -> Option<Seq<char>>
    decreases ps.len(),
{
    if ps.len() == 0 {
        None
    } else if ps.last().0 == id {
        Some(ps.last().1)
    } else {
        position_in(ps.drop_last(), id)
    }
}

/// No entry of `ps` repeats the id of an earlier one.
pub open spec fn ids_distinct(ps: Seq<(uuid::Uuid, Seq<char>)>) -> bool {
    forall|i: int| 0 <= i < ps.len() ==> position_in(#[trigger] ps.take(i), ps[i].0) is None
}

/// The FEN of the first listed game with id `id`, if one is listed.
pub open spec fn first_fen(games: Seq<WatchGameSummary>, id: uuid::Uuid) -> Option<Seq<char>>
    decreases games.len(),
{
    if games.len() == 0 {
        None
    } else {
        match first_fen(games.drop_last(), id) {
            Some(f) => Some(f),
            None => if games.last().game_id == id { Some(games.last().fen@) } else { None },
        }
    }
}

/// What a FEN from the server shows: the position it describes, or the
/// starting position when it does not parse.
pub open spec fn shown_fen(fen: Seq<char>) -> Seq<char> {
    match normalized_fen(fen) {
        Some(f) => f,
        None => start_fen(),
    }
}

/// The positions once a roster arrives: a listed game keeps the position
/// it had, a newly listed one starts from its roster FEN, and a game no
/// longer listed is dropped.
pub open spec fn after_roster(old: Seq<(uuid::Uuid, Seq<char>)>, games: Seq<WatchGameSummary>, id: uuid::Uuid) -> Option<Seq<char>> {
    match first_fen(games, id) {
        Some(f) => match position_in(old, id) {
            Some(p) => Some(p),
            None => Some(shown_fen(f)),
        },
        None => None,
    }
}

pub open spec fn entries_view(v: Seq<(uuid::Uuid, Position)>) -> Seq<(uuid::Uuid, Seq<char>)> {
    v.map_values(|e: (uuid::Uuid, Position)| (e.0, e.1@))
}

/// The watch page's state: the listed games, how many are in progress in
/// all, and the position of each game.
pub struct WatchBoard {
    games: Vec<WatchGameSummary>,
    total_active: usize,
    positions: Vec<(uuid::Uuid, Position)>,
}

impl WatchBoard {
    /// The games listed, in order.
    pub closed spec fn listed(&self) -> Seq<WatchGameSummary> {
        self.games@
    }

    /// How many games are in progress in all.
    pub closed spec fn total(&self) -> usize {
        self.total_active
    }

    pub fn games(&self) -> (g: &Vec<WatchGameSummary>)
        ensures
            g@ == self.listed(),
    {
        &self.games
    }

    pub fn total_active(&self) -> (n: usize)
        ensures
            n == self.total(),
    {
        self.total_active
    }

    /// The position of each game, by id.
    pub closed spec fn positions(&self) -> Seq<(uuid::Uuid, Seq<char>)> {
        entries_view(self.positions@)
    }

    pub open spec fn wf(&self) -> bool {
        ids_distinct(self.positions())
    }

    /// Nothing listed yet.
    pub fn new() -> (b: WatchBoard)
        ensures
            b.wf(),
            b.listed().len() == 0,
            b.total() == 0,
            forall|id: uuid::Uuid| position_in(b.positions(), id) is None,
    {
        let b = WatchBoard { games: Vec::new(), total_active: 0, positions: Vec::new() };
        assert(b.positions() =~= Seq::<(uuid::Uuid, Seq<char>)>::empty());
        b
    }

    /// The position shown for game `id`: its known position, else the
    /// starting position.
    pub fn position_of(&self, id: &uuid::Uuid) -> (p: Position)
        ensures
            p@ == (match position_in(self.positions(), *id) {
                Some(f) => f,
                None => start_fen(),
            }),
    {
        let n = self.positions.len();
        let ghost all = self.positions();
        let mut i: usize = n;
        assert(all.take(n as int) =~= all);
        while i > 0
            invariant
                i <= n,
                n == self.positions@.len(),
                all == entries_view(self.positions@),
                position_in(all, *id) == position_in(all.take(i as int), *id),
            decreases i,
        {
            let e = &self.positions[i - 1];
            assert(all.take(i as int).drop_last() =~= all.take(i - 1));
            if same_id(&e.0, id) {
                return e.1.clone();
            }
            i = i - 1;
        }
        assert(all.take(0) =~= Seq::<(uuid::Uuid, Seq<char>)>::empty());
        Position::start()
    }

    /// Takes in one message of the watch socket. A roster replaces the list
    /// and the count and refits the positions to the games listed; a
    /// position update that parses sets that game's position, one that does
    /// not is ignored.
    pub fn apply(&mut self, msg: WatchServerMessage)
        requires
            old(self).wf(),
        ensures
            final(self).wf(),
            match msg {
                WatchServerMessage::Roster { games, total_active } => {
                    &&& final(self).listed() == games@
                    &&& final(self).total() == total_active
                    &&& forall|id: uuid::Uuid| #[trigger] position_in(final(self).positions(), id)
                        == after_roster(old(self).positions(), games@, id)
                },
                WatchServerMessage::Position { game_id, fen } => {
                    &&& final(self).listed() == old(self).listed()
                    &&& final(self).total() == old(self).total()
                    &&& forall|id: uuid::Uuid| #[trigger] position_in(final(self).positions(), id)
                        == (match normalized_fen(fen@) {
                            Some(f) => if id == game_id { Some(f) } else { position_in(old(self).positions(), id) },
                            None => position_in(old(self).positions(), id),
                        })
                },
            },
    {
        match msg {
            WatchServerMessage::Roster { games, total_active } => {
                let kept = keep_listed(&self.positions, &games);
                let ps = add_new_games(kept, &games, Ghost(entries_view(self.positions@)));
                self.positions = ps;
                self.games = games;
                self.total_active = total_active;
            },
            WatchServerMessage::Position { game_id, fen } => {
                match Position::from_fen(fen.as_str()) {
                    Some(p) => {
                        let mut rest = without_id(&self.positions, &game_id);
                        let ghost before = entries_view(rest@);
                        let ghost pv = p@;
                        rest.push((game_id, p));
                        proof {
                            assert(entries_view(rest@) =~= before.push((game_id, normalized_fen(fen@)->0)));
                            assert(entries_view(rest@).drop_last() =~= before);
                            assert forall|x: uuid::Uuid| #[trigger] position_in(entries_view(rest@), x)
                                == (if x == game_id { Some(pv) } else { position_in(before, x) }) by {
                                lemma_push_lookup(before, (game_id, pv), x);
                            }
                            assert forall|i: int| 0 <= i < entries_view(rest@).len() implies position_in(
                                #[trigger] entries_view(rest@).take(i),
                                entries_view(rest@)[i].0,
                            ) is None by {
                                if i < before.len() {
                                    assert(entries_view(rest@).take(i) =~= before.take(i));
                                } else {
                                    assert(entries_view(rest@).take(i) =~= before);
                                }
                            }
                        }
                        self.positions = rest;
                    },
                    None => {},
                }
            },
        }
    }
}

proof fn lemma_push_lookup(ps: Seq<(uuid::Uuid, Seq<char>)>, e: (uuid::Uuid, Seq<char>), id: uuid::Uuid)
    ensures
        position_in(ps.push(e), id) == (if e.0 == id { Some(e.1) } else { position_in(ps, id) }),
{
    assert(ps.push(e).drop_last() =~= ps);
}

proof fn lemma_push_distinct(ps: Seq<(uuid::Uuid, Seq<char>)>, e: (uuid::Uuid, Seq<char>))
    requires
        ids_distinct(ps),
        position_in(ps, e.0) is None,
    ensures
        ids_distinct(ps.push(e)),
{
    let qs = ps.push(e);
    assert forall|i: int| 0 <= i < qs.len() implies position_in(#[trigger] qs.take(i), qs[i].0) is None by {
        if i < ps.len() {
            assert(qs.take(i) =~= ps.take(i));
        } else {
            assert(qs.take(i) =~= ps);
        }
    }
}

/// Whether game `id` is listed in `games`.
fn is_listed(games: &Vec<WatchGameSummary>, id: &uuid::Uuid) -> (b: bool)
    ensures
        b == first_fen(games@, *id) is Some,
{
    let mut i: usize = 0;
    assert(games@.take(0) =~= Seq::<WatchGameSummary>::empty());
    while i < games.len()
        invariant
            i <= games@.len(),
            first_fen(games@.take(i as int), *id) is None,
        decreases games@.len() - i,
    {
        assert(games@.take(i + 1).drop_last() =~= games@.take(i as int));
        if same_id(&games[i].game_id, id) {
            proof { lemma_first_fen_prefix(games@, *id, i + 1); }
            return true;
        }
        i = i + 1;
    }
    assert(games@.take(games@.len() as int) =~= games@);
    false
}

proof fn lemma_first_fen_prefix(games: Seq<WatchGameSummary>, id: uuid::Uuid, k: int)
    requires
        0 <= k <= games.len(),
        first_fen(games.take(k), id) is Some,
    ensures
        first_fen(games, id) == first_fen(games.take(k), id),
    decreases games.len() - k,
{
    if k < games.len() {
        assert(games.take(k + 1).drop_last() =~= games.take(k));
        lemma_first_fen_prefix(games, id, k + 1);
    } else {
        assert(games.take(k) =~= games);
    }
}

/// The entries of `ps` whose game is listed in `games`, in order.
fn keep_listed(ps: &Vec<(uuid::Uuid, Position)>, games: &Vec<WatchGameSummary>) -> (r: Vec<(uuid::Uuid, Position)>)
    requires
        ids_distinct(entries_view(ps@)),
    ensures
        ids_distinct(entries_view(r@)),
        forall|id: uuid::Uuid| #[trigger] position_in(entries_view(r@), id)
            == (if first_fen(games@, id) is Some { position_in(entries_view(ps@), id) } else { None }),
{
    let ghost all = entries_view(ps@);
    let mut out: Vec<(uuid::Uuid, Position)> = Vec::new();
    let mut j: usize = 0;
    assert(entries_view(out@) =~= Seq::<(uuid::Uuid, Seq<char>)>::empty());
    while j < ps.len()
        invariant
            j <= ps@.len(),
            all == entries_view(ps@),
            ids_distinct(all),
            ids_distinct(entries_view(out@)),
            forall|id: uuid::Uuid| #[trigger] position_in(entries_view(out@), id)
                == (if first_fen(games@, id) is Some { position_in(all.take(j as int), id) } else { None }),
        decreases ps@.len() - j,
    {
        let e = &ps[j];
        let ghost ev = (e.0, e.1@);
        assert(all[j as int] == ev);
        assert(all.take(j + 1) =~= all.take(j as int).push(ev));
        assert(position_in(all.take(j as int), ev.0) is None);
        proof {
            assert forall|id: uuid::Uuid| #[trigger] position_in(all.take(j + 1), id)
                == (if ev.0 == id { Some(ev.1) } else { position_in(all.take(j as int), id) }) by {
                lemma_push_lookup(all.take(j as int), ev, id);
            }
        }
        if is_listed(games, &e.0) {
            let ghost before = entries_view(out@);
            out.push((e.0, e.1.clone()));
            proof {
                assert(entries_view(out@) =~= before.push(ev));
                lemma_push_distinct(before, ev);
                assert forall|id: uuid::Uuid| #[trigger] position_in(entries_view(out@), id)
                    == (if first_fen(games@, id) is Some { position_in(all.take(j + 1), id) } else { None }) by {
                    lemma_push_lookup(before, ev, id);
                }
            }
        }
        j = j + 1;
    }
    assert(all.take(ps@.len() as int) =~= all);
    out
}

/// `kept` with an entry added for each listed game it has no position for,
/// the first listing of a game giving its position.
fn add_new_games(kept: Vec<(uuid::Uuid, Position)>, games: &Vec<WatchGameSummary>, Ghost(old_ps): Ghost<Seq<(uuid::Uuid, Seq<char>)>>) -> (r: Vec<(uuid::Uuid, Position)>)
    requires
        ids_distinct(entries_view(kept@)),
        forall|id: uuid::Uuid| #[trigger] position_in(entries_view(kept@), id)
            == (if first_fen(games@, id) is Some { position_in(old_ps, id) } else { None }),
    ensures
        ids_distinct(entries_view(r@)),
        forall|id: uuid::Uuid| #[trigger] position_in(entries_view(r@), id) == after_roster(old_ps, games@, id),
{
    let mut out = kept;
    let mut k: usize = 0;
    assert(games@.take(0) =~= Seq::<WatchGameSummary>::empty());
    while k < games.len()
        invariant
            k <= games@.len(),
            ids_distinct(entries_view(out@)),
            forall|id: uuid::Uuid| #[trigger] position_in(entries_view(out@), id) == (
                if first_fen(games@, id) is Some && position_in(old_ps, id) is Some {
                    position_in(old_ps, id)
                } else {
                    match first_fen(games@.take(k as int), id) {
                        Some(f) => Some(shown_fen(f)),
                        None => None,
                    }
                }),
        decreases games@.len() - k,
    {
        let g = &games[k];
        let gid = g.game_id;
        assert(games@.take(k + 1).drop_last() =~= games@.take(k as int));
        assert(games@.take(k + 1).last() == *g);
        proof {
            lemma_first_fen_prefix(games@, gid, k + 1);
        }
        let ghost before = entries_view(out@);
        let mut found = false;
        let mut i: usize = 0;
        while i < out.len()
            invariant
                i <= out@.len(),
                before == entries_view(out@),
                found == (position_in(before.take(i as int), gid) is Some),
            decreases out@.len() - i,
        {
            let ghost e = before[i as int];
            assert(before.take(i + 1) =~= before.take(i as int).push(e));
            proof { lemma_push_lookup(before.take(i as int), e, gid); }
            if same_id(&out[i].0, &gid) {
                found = true;
            }
            i = i + 1;
        }
        assert(before.take(before.len() as int) =~= before);
        if !found {
            let p = match Position::from_fen(g.fen.as_str()) {
                Some(p) => p,
                None => Position::start(),
            };
            let ghost ev = (gid, p@);
            out.push((gid, p));
            proof {
                assert(entries_view(out@) =~= before.push(ev));
                lemma_push_distinct(before, ev);
                assert forall|id: uuid::Uuid| #[trigger] position_in(entries_view(out@), id) == (
                    if first_fen(games@, id) is Some && position_in(old_ps, id) is Some {
                        position_in(old_ps, id)
                    } else {
                        match first_fen(games@.take(k + 1), id) {
                            Some(f) => Some(shown_fen(f)),
                            None => None,
                        }
                    }) by {
                    lemma_push_lookup(before, ev, id);
                }
            }
        }
        k = k + 1;
    }
    assert(games@.take(games@.len() as int) =~= games@);
    out
}

/// The entries of `ps` for games other than `id`, in order.
fn without_id(ps: &Vec<(uuid::Uuid, Position)>, id: &uuid::Uuid) -> (r: Vec<(uuid::Uuid, Position)>)
    requires
        ids_distinct(entries_view(ps@)),
    ensures
        ids_distinct(entries_view(r@)),
        forall|x: uuid::Uuid| #[trigger] position_in(entries_view(r@), x)
            == (if x == *id { None } else { position_in(entries_view(ps@), x) }),
{
    let ghost all = entries_view(ps@);
    let mut out: Vec<(uuid::Uuid, Position)> = Vec::new();
    let mut j: usize = 0;
    assert(entries_view(out@) =~= Seq::<(uuid::Uuid, Seq<char>)>::empty());
    while j < ps.len()
        invariant
            j <= ps@.len(),
            all == entries_view(ps@),
            ids_distinct(all),
            ids_distinct(entries_view(out@)),
            forall|x: uuid::Uuid| #[trigger] position_in(entries_view(out@), x)
                == (if x == *id { None } else { position_in(all.take(j as int), x) }),
        decreases ps@.len() - j,
    {
        let e = &ps[j];
        let ghost ev = (e.0, e.1@);
        assert(all[j as int] == ev);
        assert(all.take(j + 1) =~= all.take(j as int).push(ev));
        assert(position_in(all.take(j as int), ev.0) is None);
        proof {
            assert forall|x: uuid::Uuid| #[trigger] position_in(all.take(j + 1), x)
                == (if ev.0 == x { Some(ev.1) } else { position_in(all.take(j as int), x) }) by {
                lemma_push_lookup(all.take(j as int), ev, x);
            }
        }
        if !same_id(&e.0, id) {
            let ghost before = entries_view(out@);
            out.push((e.0, e.1.clone()));
            proof {
                assert(entries_view(out@) =~= before.push(ev));
                lemma_push_distinct(before, ev);
                assert forall|x: uuid::Uuid| #[trigger] position_in(entries_view(out@), x)
                    == (if x == *id { None } else { position_in(all.take(j + 1), x) }) by {
                    lemma_push_lookup(before, ev, x);
                }
            }
        }
        j = j + 1;
    }
    assert(all.take(ps@.len() as int) =~= all);
    out
}

/// `Showing N of M active games`, when more games are in progress than the
/// page lists (`limit`); `None` otherwise.
pub fn watch_header(shown: usize, total: usize, limit: usize) -> (r: Option<String>)
    ensures
        total > limit ==> (r matches Some(s) && s@ == "Showing "@ + nat_text(shown as nat) + " of "@
            + nat_text(total as nat) + " active games"@),
        total <= limit ==> r is None,
{
    if total > limit {
        let mut out: Vec<char> = Vec::new();
        push_str(&mut out, "Showing ");
        push_nat(&mut out, shown as u64);
        push_str(&mut out, " of ");
        push_nat(&mut out, total as u64);
        push_str(&mut out, " active games");
        Some(string_of(&out))
    } else {
        None
    }
}

/// The rating label of a watched game: `Rated` or `Casual`.
pub fn rated_label(rated: bool) -> (s: &'static str)
    ensures
        s@ == (if rated { "Rated"@ } else { "Casual"@ }),
{
    if rated { "Rated" } else { "Casual" }
}

/// The watch socket's first wait before reconnecting, in milliseconds, and
/// the wait it returns to whenever a connection opens.
pub const WATCH_FIRST_BACKOFF_MS: u32 = 500;

/// One round of the watch socket's reconnect loop, which waits `backoff_ms`
/// (reset to the first wait when the connection had opened) and then doubles
/// it, to at most five seconds. Returns the wait and the next backoff.
pub fn watch_reconnect(backoff_ms: u32, connected: bool) -> (r: (u32, u32))
    requires
        connected || backoff_ms <= u32::MAX / 2,
    ensures
        r.0 == (if connected { WATCH_FIRST_BACKOFF_MS } else { backoff_ms }),
        r.1 == (if 2 * r.0 < 5_000 { 2 * r.0 } else { 5_000 }),
{
    let wait = if connected { WATCH_FIRST_BACKOFF_MS } else { backoff_ms };
    let doubled = wait * 2;
    (wait, if doubled < 5_000 { doubled } else { 5_000 })
}

} // verus!
