//! The live game's move list: which ply is on the board, stepping through
//! the plies already played, and the numbered rows the list shows.
//!
//! A viewed ply of `None` is the live position; `Some(i)` is the position
//! after the first `i` moves.

use vstd::prelude::*;
use crate::analysis::Nav;

verus! {

/// The ply the list highlights: the viewed one, or the live end.
pub open spec fn selected_of(viewing: Option<usize>, total: int) -> int {
    match viewing {
        Some(i) => i as int,
        None => total,
    }
}

/// The ply that is highlighted, `total` being the number of moves played.
pub fn selected_ply(viewing: Option<usize>, total: usize) -> (s: usize)
    ensures
        s == selected_of(viewing, total as int),
{
    match viewing {
        Some(i) => i,
        None => total,
    }
}

/// The viewed ply after a step: back one ply (staying at the first
/// position), forward one (back to live when that reaches the end), to
/// the first position, or to live.
pub open spec fn ply_after(viewing: Option<usize>, total: int, nav: Nav) -> Option<usize> {
    let cur = selected_of(viewing, total);
    match nav {
        Nav::Back => if cur > 0 { Some((cur - 1) as usize) } else { viewing },
        Nav::Forward => if cur + 1 >= total { None } else { Some((cur + 1) as usize) },
        Nav::Beginning => Some(0usize),
        Nav::End => None,
    }
}

/// Takes one step through the played moves.
pub fn step_ply(viewing: Option<usize>, total: usize, nav: Nav) -> (r: Option<usize>)
    requires
        nav == Nav::Forward ==> selected_of(viewing, total as int) < usize::MAX,
    ensures
        r == ply_after(viewing, total as int, nav),
{
    let cur = selected_ply(viewing, total);
    match nav {
        Nav::Back => {
            if cur > 0 {
                Some(cur - 1)
            } else {
                viewing
            }
        },
        Nav::Forward => {
            let next = cur + 1;
            if next >= total {
                None
            } else {
                Some(next)
            }
        },
        Nav::Beginning => Some(0),
        Nav::End => None,
    }
}

/// Whether stepping back (and to the first position) is offered: not at
/// the first position.
pub fn can_step_back(viewing: Option<usize>, total: usize) -> (b: bool)
    ensures
        b == (selected_of(viewing, total as int) > 0),
{
    selected_ply(viewing, total) > 0
}

/// Whether stepping forward (and to live) is offered: only while looking
/// back at an earlier ply.
pub fn can_step_forward(viewing: Option<usize>) -> (b: bool)
    ensures
        b == viewing is Some,
{
    viewing.is_some()
}

/// Whether `viewing` names a position of the game: live, or at most
/// `total` moves in.
pub open spec fn in_range(viewing: Option<usize>, total: int) -> bool {
    viewing matches Some(i) ==> i <= total
}

/// No step leaves the game: from a position of the game, every step leads
/// to one.
pub proof fn steps_stay_in_the_game(viewing: Option<usize>, total: usize, nav: Nav)
    requires
        in_range(viewing, total as int),
    ensures
        in_range(ply_after(viewing, total as int, nav), total as int),
{
}

/// Stepping back and then forward returns to where one was, from any
/// position of the game but the first.
pub proof fn forward_undoes_back(viewing: Option<usize>, total: usize)
    requires
        in_range(viewing, total as int),
        selected_of(viewing, total as int) > 0,
        viewing matches Some(i) ==> i < total,
    ensures
        ply_after(ply_after(viewing, total as int, Nav::Back), total as int, Nav::Forward) == viewing,
{
}

/// Stepping forward and then back returns to where one was, from any
/// earlier ply that the next move does not turn into the live position.
pub proof fn back_undoes_forward(i: usize, total: usize)
    requires
        i + 1 < total,
    ensures
        ply_after(ply_after(Some(i), total as int, Nav::Forward), total as int, Nav::Back) == Some(i),
{
}

/// One numbered row of the list: White's move and Black's reply, if made,
/// with the plies that show the position after each.
pub struct HistoryRow {
    pub number: usize,
    pub white: String,
    pub black: Option<String>,
    pub white_ply: usize,
    pub black_ply: usize,
}

/// Whether `r` is row `k` (from 0) of the list for the moves `sans`.
pub open spec fn is_row(r: HistoryRow, sans: Seq<String>, k: int) -> bool {
    &&& r.number == k + 1
    &&& r.white@ == sans[2 * k]@
    &&& (if 2 * k + 1 < sans.len() {
        r.black matches Some(b) && b@ == sans[2 * k + 1]@
    } else {
        r.black is None
    })
    &&& r.white_ply == 2 * k + 1
    &&& r.black_ply == 2 * k + 2
}

/// The rows of the list: one per move number, White's move first.
pub fn history_rows(sans: &[String]) -> (rows: Vec<HistoryRow>)
    requires
        sans@.len() < usize::MAX,
    ensures
        rows@.len() == (sans@.len() + 1) / 2,
        forall|k: int| 0 <= k < rows@.len() ==> is_row(#[trigger] rows@[k], sans@, k),
{
    let n = sans.len();
    let mut rows: Vec<HistoryRow> = Vec::new();
    let mut k: usize = 0;
    while 2 * k < n
        invariant
            n == sans@.len(),
            n < usize::MAX,
            k <= (n + 1) / 2,
            rows@.len() == k,
            forall|j: int| 0 <= j < k ==> is_row(#[trigger] rows@[j], sans@, j),
        decreases n - k,
    {
        let w = 2 * k;
        let black = if w + 1 < n { Some(sans[w + 1].clone()) } else { None };
        rows.push(HistoryRow { number: k + 1, white: sans[w].clone(), black, white_ply: w + 1, black_ply: w + 2 });
        k = k + 1;
    }
    rows
}

} // verus!
