//! Opening names for positions on the analysis board, from a catalogue of
//! tab-separated rows `ECO<TAB>name<TAB>PGN` (one header line per volume).

use vstd::prelude::*;
use crate::pgn::{pgn_tree, scan_to, scan_to_exec, sub_chars};
use crate::position::Position;
use crate::text::{chars_of, join_spaced, lines, lines_of, split_words, string_of, words};
use crate::tree::{last_mainline, path_to, wf, MoveTree, NodeId, NodeView};

verus! {

/// The first four FEN fields (placement, side to move, castling, en
/// passant): positions that differ only in their move counters share a
/// key.
pub open spec fn position_key_of(fen: Seq<char>) -> Seq<char> {
    let ws = words(fen);
    join_spaced(if ws.len() > 4 { ws.take(4) } else { ws })
}

/// The catalogue key of a position.
pub fn position_key(pos: &Position) -> (k: String)
    ensures
        k@ == position_key_of(pos@),
{
    let chars = chars_of(pos.fen_str());
    let ws = split_words(&chars);
    let ghost all = ws@.map_values(|w: Vec<char>| w@);
    assert(all =~= words(pos@));
    let n = if ws.len() > 4 { 4 } else { ws.len() };
    let mut out: Vec<char> = Vec::new();
    let mut i: usize = 0;
    assert(all.take(0) =~= Seq::<Seq<char>>::empty());
    while i < n
        invariant
            n <= ws@.len(),
            n == (if ws@.len() > 4 { 4 } else { ws@.len() }),
            all == ws@.map_values(|w: Vec<char>| w@),
            i <= n,
            out@ == join_spaced(all.take(i as int)),
        decreases n - i,
    {
        let ghost before = out@;
        if i > 0 {
            out.push(' ');
        }
        let w = &ws[i];
        let mut j: usize = 0;
        while j < w.len()
            invariant
                j <= w@.len(),
                out@ == before + (if i > 0 { seq![' '] } else { Seq::empty() }) + w@.subrange(0, j as int),
            decreases w@.len() - j,
        {
            out.push(w[j]);
            j = j + 1;
            assert(out@ =~= before + (if i > 0 { seq![' '] } else { Seq::empty() }) + w@.subrange(0, j as int));
        }
        assert(w@.subrange(0, j as int) =~= w@);
        assert(all.take(i + 1).drop_last() =~= all.take(i as int));
        assert(all.take(i + 1).last() == w@);
        i = i + 1;
        assert(out@ =~= join_spaced(all.take(i as int)));
    }
    assert(all.take(n as int) =~= (if all.len() > 4 { all.take(4) } else { all }));
    string_of(&out)
}

/// The ECO code, name and PGN of a row, split at its first two tabs (the
/// PGN keeps any further tabs); `None` when it has fewer than two.
pub open spec fn row_fields(line: Seq<char>) -> Option<(Seq<char>, Seq<char>, Seq<char>)> {
    let t1 = scan_to(line, 0, '\t');
    let t2 = scan_to(line, t1 + 1, '\t');
    if t1 < line.len() && t2 < line.len() {
        Some((line.subrange(0, t1), line.subrange(t1 + 1, t2), line.subrange(t2 + 1, line.len() as int)))
    } else {
        None
    }
}

/// The catalogue entry a row gives: the key of the position its PGN's
/// mainline ends in, with its ECO code and name; `None` for a row without
/// three fields or whose PGN does not read.
pub open spec fn row_entry(line: Seq<char>) -> Option<(Seq<char>, Seq<char>, Seq<char>)> {
    match row_fields(line) {
        None => None,
        Some((eco, name, pgn)) => match pgn_tree(pgn) {
            Ok(t) => Some((position_key_of(t[last_mainline(t, 0)].fen), eco, name)),
            Err(_) => None,
        },
    }
}

/// The lines of a volume after its header line.
pub open spec fn data_lines(volume: Seq<char>) -> Seq<Seq<char>> {
    let ls = lines(volume);
    if ls.len() > 0 { ls.drop_first() } else { ls }
}

/// The data rows of all volumes, in order.
pub open spec fn catalog_rows(volumes: Seq<Seq<char>>) -> Seq<Seq<char>>
    decreases volumes.len(),
{
    if volumes.len() == 0 {
        Seq::empty()
    } else {
        catalog_rows(volumes.drop_last()) + data_lines(volumes.last())
    }
}

pub open spec fn has_key(entries: Seq<(Seq<char>, Seq<char>, Seq<char>)>, key: Seq<char>) -> bool {
    exists|j: int| 0 <= j < entries.len() && (#[trigger] entries[j]).0 == key
}

/// The entries the first `n` rows give, the first row for a key winning.
pub open spec fn catalog_of(rows: Seq<Seq<char>>, n: int) -> Seq<(Seq<char>, Seq<char>, Seq<char>)>
    decreases n,
{
    if n <= 0 {
        Seq::empty()
    } else {
        let prev = catalog_of(rows, n - 1);
        match row_entry(rows[n - 1]) {
            Some(e) => if has_key(prev, e.0) { prev } else { prev.push(e) },
            None => prev,
        }
    }
}

/// Opening names keyed by position.
pub struct OpeningCatalog {
    entries: Vec<(String, String, String)>,
}

impl View for OpeningCatalog {
    type V = Seq<(Seq<char>, Seq<char>, Seq<char>)>;

    closed spec fn view(&self) -> Seq<(Seq<char>, Seq<char>, Seq<char>)> {
        self.entries@.map_values(|e: (String, String, String)| (e.0@, e.1@, e.2@))
    }
}

/// No key occurs twice.
pub open spec fn keys_distinct(entries: Seq<(Seq<char>, Seq<char>, Seq<char>)>) -> bool {
    forall|i: int, j: int| 0 <= i < j < entries.len() ==> (#[trigger] entries[i]).0 != (#[trigger] entries[j]).0
}

/// A catalogue never holds a key twice: a later row for a key already
/// named is dropped.
pub proof fn catalog_keys_are_distinct(rows: Seq<Seq<char>>, n: int)
    ensures
        keys_distinct(catalog_of(rows, n)),
    decreases n,
{
    if n > 0 {
        catalog_keys_are_distinct(rows, n - 1);
        let prev = catalog_of(rows, n - 1);
        match row_entry(rows[n - 1]) {
            Some(e) => {
                if !has_key(prev, e.0) {
                    let c = prev.push(e);
                    assert forall|i: int, j: int| 0 <= i < j < c.len() implies (#[trigger] c[i]).0 != (#[trigger] c[j]).0 by {
                        if j == prev.len() {
                            assert(prev[i] == c[i]);
                        } else {
                            assert(prev[i] == c[i] && prev[j] == c[j]);
                        }
                    }
                }
            },
            None => {},
        }
    }
}

/// The index of the entry for `key`, when there is one.
pub open spec fn entry_index(entries: Seq<(Seq<char>, Seq<char>, Seq<char>)>, key: Seq<char>, k: int) -> Option<int>
    decreases entries.len() - k,
{
    if 0 <= k < entries.len() {
        if entries[k].0 == key { Some(k) } else { entry_index(entries, key, k + 1) }
    } else {
        None
    }
}

impl OpeningCatalog {
    /// The number of named positions.
    pub fn len(&self) -> (n: usize)
        ensures
            n == self@.len(),
    {
        self.entries.len()
    }

    fn find(&self, key: &String) -> (r: Option<usize>)
        ensures
            match r {
                Some(i) => entry_index(self@, key@, 0) == Some(i as int) && i < self@.len(),
                None => entry_index(self@, key@, 0) is None,
            },
    {
        let mut i: usize = 0;
        while i < self.entries.len()
            invariant
                i <= self@.len(),
                self@.len() == self.entries@.len(),
                entry_index(self@, key@, 0) == entry_index(self@, key@, i as int),
            decreases self@.len() - i,
        {
            assert(self@[i as int].0 == self.entries@[i as int].0@);
            if self.entries[i].0 == *key {
                return Some(i);
            }
            i = i + 1;
        }
        None
    }

    /// The ECO code and name stored for `key`.
    pub fn get(&self, key: &String) -> (r: Option<(String, String)>)
        ensures
            match entry_index(self@, key@, 0) {
                Some(i) => r matches Some(v) && v.0@ == self@[i].1 && v.1@ == self@[i].2,
                None => r is None,
            },
    {
        match self.find(key) {
            Some(i) => {
                Some((self.entries[i].1.clone(), self.entries[i].2.clone()))
            },
            None => None,
        }
    }
}

proof fn lemma_entry_index_found(entries: Seq<(Seq<char>, Seq<char>, Seq<char>)>, key: Seq<char>, k: int)
    requires
        0 <= k,
    ensures
        entry_index(entries, key, k) is None <==> !(exists|j: int| k <= j < entries.len() && (#[trigger] entries[j]).0 == key),
    decreases entries.len() - k,
{
    if k < entries.len() {
        lemma_entry_index_found(entries, key, k + 1);
        if entries[k].0 != key {
            if exists|j: int| k <= j < entries.len() && (#[trigger] entries[j]).0 == key {
                let j = choose|j: int| k <= j < entries.len() && (#[trigger] entries[j]).0 == key;
                assert(j != k);
                assert(k + 1 <= j);
            }
        }
    }
}

/// Builds the catalogue from volumes of rows. Each row's PGN is read with
/// `MoveTree::from_pgn` and keyed by the position its mainline ends in;
/// rows that do not split into three fields or whose PGN does not read are
/// skipped, and the first row for a position wins.
pub fn catalog(volumes: &[&str]) -> (c: OpeningCatalog)
    ensures
        c@ == catalog_of(catalog_rows(volumes@.map_values(|v: &str| v@)), catalog_rows(volumes@.map_values(|v: &str| v@)).len() as int),
{
    let ghost vs = volumes@.map_values(|v: &str| v@);
    let rows_vec = data_rows(volumes);
    let ghost rows = catalog_rows(vs);
    let mut cat = OpeningCatalog { entries: Vec::new() };
    assert(cat@ =~= catalog_of(rows, 0));
    let mut n: usize = 0;
    while n < rows_vec.len()
        invariant
            rows_vec@.len() == rows.len(),
            forall|j: int| 0 <= j < rows_vec@.len() ==> (#[trigger] rows_vec@[j])@ == rows[j],
            n <= rows.len(),
            cat@ == catalog_of(rows, n as int),
        decreases rows.len() - n,
    {
        add_row(&mut cat, &rows_vec[n], Ghost(rows), Ghost(n as int));
        n = n + 1;
    }
    cat
}

/// The data rows of all volumes, as character vectors.
fn data_rows(volumes: &[&str]) -> (r: Vec<Vec<char>>)
    ensures
        r@.len() == catalog_rows(volumes@.map_values(|v: &str| v@)).len(),
        forall|j: int| 0 <= j < r@.len() ==> (#[trigger] r@[j])@ == catalog_rows(volumes@.map_values(|v: &str| v@))[j],
{
    let ghost vs = volumes@.map_values(|v: &str| v@);
    let mut out: Vec<Vec<char>> = Vec::new();
    let mut v: usize = 0;
    assert(vs.take(0) =~= Seq::<Seq<char>>::empty());
    while v < volumes.len()
        invariant
            vs == volumes@.map_values(|v: &str| v@),
            v <= vs.len(),
            out@.len() == catalog_rows(vs.take(v as int)).len(),
            forall|j: int| 0 <= j < out@.len() ==> (#[trigger] out@[j])@ == catalog_rows(vs.take(v as int))[j],
        decreases vs.len() - v,
    {
        let ghost before = catalog_rows(vs.take(v as int));
        let chars = chars_of(volumes[v]);
        assert(chars@ == vs[v as int]);
        let ls = lines_of(&chars);
        let ghost data = data_lines(chars@);
        let mut k: usize = 1;
        while k < ls.len()
            invariant
                ls@.len() == lines(chars@).len(),
                forall|j: int| 0 <= j < ls@.len() ==> (#[trigger] ls@[j])@ == lines(chars@)[j],
                data == data_lines(chars@),
                1 <= k,
                k <= ls@.len() || (ls@.len() == 0 && k == 1),
                out@.len() == before.len() + k - 1,
                forall|j: int| 0 <= j < out@.len() ==> (#[trigger] out@[j])@ == (before + data)[j],
            decreases ls@.len() - k,
        {
            out.push(ls[k].clone());
            k = k + 1;
        }
        proof {
            if ls@.len() > 0 {
                assert(data.len() == ls@.len() - 1);
                assert(k == ls@.len());
            } else {
                assert(data.len() == 0);
            }
            assert(out@.len() == (before + data).len());
            assert(vs.take(v + 1).drop_last() =~= vs.take(v as int));
            assert(vs.take(v + 1).last() == vs[v as int]);
            assert(catalog_rows(vs.take(v + 1)) == before + data);
        }
        v = v + 1;
    }
    assert(vs.take(vs.len() as int) =~= vs);
    out
}

fn add_row(cat: &mut OpeningCatalog, line: &Vec<char>, Ghost(rows): Ghost<Seq<Seq<char>>>, Ghost(n): Ghost<int>)
    requires
        0 <= n < rows.len(),
        rows[n] == line@,
        old(cat)@ == catalog_of(rows, n),
    ensures
        final(cat)@ == catalog_of(rows, n + 1),
{
    let len = line.len();
    let t1 = scan_to_exec(line, 0, '\t');
    if t1 >= len {
        return;
    }
    let t2 = scan_to_exec(line, t1 + 1, '\t');
    if t2 >= len {
        return;
    }
    let eco = string_of(&sub_chars(line, 0, t1));
    let name = string_of(&sub_chars(line, t1 + 1, t2));
    let pgn = string_of(&sub_chars(line, t2 + 1, len));
    assert(row_fields(line@) == Some((eco@, name@, pgn@)));
    match MoveTree::from_pgn(pgn.as_str()) {
        Err(_) => {},
        Ok(tree) => {
            let end = tree.last_mainline_from(tree.root());
            let key = position_key(tree.position(end));
            assert(row_entry(line@) == Some((key@, eco@, name@)));
            let ghost prev = cat@;
            proof { lemma_entry_index_found(prev, key@, 0); }
            match cat.find(&key) {
                Some(_) => {
                    assert(has_key(prev, key@));
                },
                None => {
                    cat.entries.push((key, eco, name));
                    assert(cat@ =~= prev.push((key@, eco@, name@)));
                },
            }
        },
    }
}

/// The name stored for the deepest position on `path[..k]` that has one.
pub open spec fn named_on_path(
    t: Seq<NodeView>,
    path: Seq<usize>,
    k: int,
    entries: Seq<(Seq<char>, Seq<char>, Seq<char>)>,
) -> Option<(Seq<char>, Seq<char>)>
    decreases k,
{
    if k <= 0 || k > path.len() {
        None
    } else {
        match entry_index(entries, position_key_of(t[path[k - 1] as int].fen), 0) {
            Some(i) => Some((entries[i].1, entries[i].2)),
            None => named_on_path(t, path, k - 1, entries),
        }
    }
}

/// The ECO code and name of the deepest named position from the root to
/// `cursor` (inclusive), walking back from `cursor`: a line past known
/// theory still reports the last named position it went through.
pub fn lookup(tree: &MoveTree, cursor: NodeId, cat: &OpeningCatalog) -> (r: Option<(String, String)>)
    requires
        wf(tree@),
        cursor < tree@.len(),
    ensures
        match named_on_path(tree@, path_to(tree@, cursor as int), path_to(tree@, cursor as int).len() as int, cat@) {
            Some((eco, name)) => r matches Some(v) && v.0@ == eco && v.1@ == name,
            None => r is None,
        },
{
    let path = tree.path_from_root(cursor);
    proof { crate::tree::path_runs_from_the_root(tree@, cursor); }
    let mut k = path.len();
    while k > 0
        invariant
            wf(tree@),
            path@ == path_to(tree@, cursor as int),
            forall|j: int| 0 <= j < path@.len() ==> path@[j] < tree@.len(),
            k <= path@.len(),
            named_on_path(tree@, path@, path@.len() as int, cat@) == named_on_path(tree@, path@, k as int, cat@),
        decreases k,
    {
        let id = path[k - 1];
        let key = position_key(tree.position(id));
        match cat.get(&key) {
            Some(found) => {
                return Some(found);
            },
            None => {},
        }
        k = k - 1;
    }
    None
}

} // verus!
