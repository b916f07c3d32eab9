//! Properties of the game that span several operations.

use vstd::prelude::*;

use crate::board::{
    GridPos, Refill, at, column_of, has_valid_swap, in_match, is_gem, matched_cells, settled, shaped,
    swap_makes_match, swapped, valid_swap, lemma_matched_cells, gravity_applied, placed,
    refill_positions, refill_kinds, occupied_by, lemma_placed_occupied, lemma_in_match_occupied,
    GRID_COLS, GRID_ROWS,
};
use bevy::ecs::entity::Entity;
use crate::game_logic::{award, POINTS_PER_CLEARED_GEM};
use crate::board::{drawn_kind, refills_drawn, pos_of, with_cell};
use crate::gems::{GemType, allowed_kinds, board_after, draws_below, empty_board, fits_at};
use crate::runs::{in_run, is_run};

verus! {

/// Adjacency is symmetric, and no cell is adjacent to itself.
pub proof fn law_adjacency_symmetric(a: GridPos, b: GridPos)
    ensures
        a.adjacent(b) == b.adjacent(a),
        !a.adjacent(a),
{
}

/// Two positions are adjacent exactly when they are one step apart along a
/// row or a column: their column distance and row distance add up to one.
/// This holds everywhere, the last row and column included.
pub proof fn law_adjacency_is_unit_distance(p: GridPos, q: GridPos)
    ensures
        p.adjacent(q) <==> (if p.col >= q.col { p.col - q.col } else { q.col - p.col }) + (if p.row
            >= q.row {
            p.row - q.row
        } else {
            q.row - p.row
        }) == 1,
{
}

/// A valid move exists exactly when some two cells that share an edge (one
/// directly right of or below the other, anywhere on the board) both hold
/// gems and, once exchanged, leave one of the two cells in a match.
pub proof fn law_valid_move_iff_neighbour_swap_matches(b: Seq<Seq<Option<GemType>>>)
    requires
        shaped(b),
    ensures
        has_valid_swap(b) <==> exists|pa: GridPos, pb: GridPos|
            pa.col < GRID_COLS && pa.row < GRID_ROWS && pb.col < GRID_COLS && pb.row < GRID_ROWS
                && ((pb.row == pa.row && pb.col == pa.col + 1) || (pb.col == pa.col && pb.row == pa.row + 1))
                && b[pa.row as int][pa.col as int] is Some && b[pb.row as int][pb.col as int] is Some
                && (in_match(#[trigger] swapped(b, pa, pb), pa.row as int, pa.col as int) || in_match(
                swapped(b, pa, pb),
                pb.row as int,
                pb.col as int,
            )),
{
    if has_valid_swap(b) {
        let (pa, pb) = choose|pa: GridPos, pb: GridPos| #[trigger] valid_swap(b, pa, pb);
        if (pb.row == pa.row && pb.col == pa.col + 1) || (pb.col == pa.col && pb.row == pa.row + 1) {
            assert(swapped(b, pa, pb) == swapped(b, pa, pb));
        } else {
            crate::board::lemma_swapped_symmetric(b, pa, pb);
            assert(swapped(b, pb, pa) == swapped(b, pa, pb));
        }
    }
    if exists|pa: GridPos, pb: GridPos|
        pa.col < GRID_COLS && pa.row < GRID_ROWS && pb.col < GRID_COLS && pb.row < GRID_ROWS
            && ((pb.row == pa.row && pb.col == pa.col + 1) || (pb.col == pa.col && pb.row == pa.row + 1))
            && b[pa.row as int][pa.col as int] is Some && b[pb.row as int][pb.col as int] is Some
            && (in_match(#[trigger] swapped(b, pa, pb), pa.row as int, pa.col as int) || in_match(
            swapped(b, pa, pb),
            pb.row as int,
            pb.col as int,
        )) {
        let (pa, pb) = choose|pa: GridPos, pb: GridPos|
            pa.col < GRID_COLS && pa.row < GRID_ROWS && pb.col < GRID_COLS && pb.row < GRID_ROWS
                && ((pb.row == pa.row && pb.col == pa.col + 1) || (pb.col == pa.col && pb.row == pa.row + 1))
                && b[pa.row as int][pa.col as int] is Some && b[pb.row as int][pb.col as int] is Some
                && (in_match(#[trigger] swapped(b, pa, pb), pa.row as int, pa.col as int) || in_match(
                swapped(b, pa, pb),
                pb.row as int,
                pb.col as int,
            ));
        assert(valid_swap(b, pa, pb));
    }
}

/// The game is over exactly when no swap of two adjacent gems would be
/// accepted: every swap of adjacent occupied cells leaves both cells
/// unmatched.
pub proof fn law_game_over_iff_no_accepted_swap(b: Seq<Seq<Option<GemType>>>)
    ensures
        !has_valid_swap(b) <==> forall|pa: GridPos, pb: GridPos|
            pa.in_bounds() && pb.in_bounds() && pa.adjacent(pb) && at(b, pa) is Some && at(b, pb) is Some
                ==> !#[trigger] swap_makes_match(b, pa, pb),
{
    if !has_valid_swap(b) {
        assert forall|pa: GridPos, pb: GridPos|
            pa.in_bounds() && pb.in_bounds() && pa.adjacent(pb) && at(b, pa) is Some && at(b, pb) is Some
                implies !#[trigger] swap_makes_match(b, pa, pb) by {
            assert(!valid_swap(b, pa, pb));
        }
    }
}

/// Gravity neither creates nor destroys gems and keeps their order: a
/// settled column is as long as before, holds the same gems in the same
/// order, and has all its empty cells on top.
pub proof fn law_settling_keeps_gems<T>(col: Seq<Option<T>>)
    ensures
        settled(col).len() == col.len(),
        settled(col).filter(is_gem::<T>()) == col.filter(is_gem::<T>()),
        forall|i: int| 0 <= i < settled(col).len() ==> (#[trigger] settled(col)[i] is None <==> i < col.len()
            - col.filter(is_gem::<T>()).len()),
{
    let gems = col.filter(is_gem::<T>());
    col.lemma_filter_len(is_gem::<T>());
    let nones = Seq::new((col.len() - gems.len()) as nat, |i: int| None::<T>);
    Seq::filter_distributes_over_add(nones, gems, is_gem::<T>());
    lemma_filter_all_none(nones);
    lemma_filter_all_some(gems);
    assert(nones.filter(is_gem::<T>()) + gems.filter(is_gem::<T>()) =~= gems);
    assert forall|i: int| 0 <= i < settled(col).len() implies (#[trigger] settled(col)[i] is None <==> i
        < col.len() - gems.len()) by {
        if i >= col.len() - gems.len() {
            col.lemma_filter_pred(is_gem::<T>(), i - (col.len() - gems.len()));
        }
    }
}

/// Filtering a column of empty cells for gems leaves nothing.
proof fn lemma_filter_all_none<T>(s: Seq<Option<T>>)
    requires
        forall|i: int| 0 <= i < s.len() ==> #[trigger] s[i] is None,
    ensures
        s.filter(is_gem::<T>()) == Seq::<Option<T>>::empty(),
    decreases s.len(),
{
    reveal(Seq::filter);
    if s.len() > 0 {
        lemma_filter_all_none(s.drop_last());
    }
}

/// Filtering a sequence of gems for gems keeps it whole.
proof fn lemma_filter_all_some<T>(s: Seq<Option<T>>)
    requires
        forall|i: int| 0 <= i < s.len() ==> #[trigger] s[i] is Some,
    ensures
        s.filter(is_gem::<T>()) == s,
    decreases s.len(),
{
    reveal(Seq::filter);
    if s.len() > 0 {
        lemma_filter_all_some(s.drop_last());
        assert(s.drop_last().push(s.last()) =~= s);
    }
}

/// Each cleared gem adds `POINTS_PER_CLEARED_GEM` points: the award for a
/// clear is the sum of the awards for any split of it.
pub proof fn law_award_per_gem(n: nat, k: nat)
    ensures
        award(1) == POINTS_PER_CLEARED_GEM,
        award(n + k) == award(n) + award(k),
{
    assert((n + k) * (POINTS_PER_CLEARED_GEM as nat) == n * (POINTS_PER_CLEARED_GEM as nat) + k * (
    POINTS_PER_CLEARED_GEM as nat)) by (nonlinear_arith);
}

/// A board on which no cell lies in a match yields no matched cells, and one
/// on which some cell does yields at least one.
pub proof fn law_matched_cells_empty_iff_no_match(b: Seq<Seq<Option<GemType>>>)
    ensures
        matched_cells(b).len() == 0 <==> forall|p: GridPos|
            p.in_bounds() ==> !#[trigger] in_match(b, p.row as int, p.col as int),
{
    lemma_matched_cells(b);
    let m = matched_cells(b);
    if m.len() > 0 {
        assert(m[0].in_bounds() && in_match(b, m[0].row as int, m[0].col as int));
    }
    if m.len() == 0 {
        assert forall|p: GridPos| p.in_bounds() implies !#[trigger] in_match(b, p.row as int, p.col as int) by {
            if in_match(b, p.row as int, p.col as int) {
                assert(m.contains(p));
            }
        }
    }
}

/// An accepted swap always gives the following cascade something to clear.
pub proof fn law_accepted_swap_leaves_matches(b: Seq<Seq<Option<GemType>>>, pa: GridPos, pb: GridPos)
    requires
        shaped(b),
        pa.in_bounds(),
        pb.in_bounds(),
        swap_makes_match(b, pa, pb),
    ensures
        matched_cells(swapped(b, pa, pb)).len() > 0,
{
    let s = swapped(b, pa, pb);
    law_matched_cells_empty_iff_no_match(s);
    if in_match(s, pa.row as int, pa.col as int) {
        assert(!(forall|p: GridPos| p.in_bounds() ==> !#[trigger] in_match(s, p.row as int, p.col as int)));
    } else {
        assert(!(forall|p: GridPos| p.in_bounds() ==> !#[trigger] in_match(s, p.row as int, p.col as int)));
    }
}

/// On a board where no cell lies in a match, as while the player is to move,
/// a swap creates a match somewhere exactly when it leaves one of the two
/// swapped cells in a match. Checking those two cells is therefore checking
/// the whole board.
pub proof fn law_swap_match_only_at_swapped_cells(
    b: Seq<Seq<Option<GemType>>>,
    pa: GridPos,
    pb: GridPos,
    p: GridPos,
)
    requires
        shaped(b),
        pa.in_bounds(),
        pb.in_bounds(),
        p.in_bounds(),
        forall|q: GridPos| q.in_bounds() ==> !#[trigger] in_match(b, q.row as int, q.col as int),
        in_match(swapped(b, pa, pb), p.row as int, p.col as int),
    ensures
        swap_makes_match(b, pa, pb),
{
    let s = swapped(b, pa, pb);
    let r = p.row as int;
    let c = p.col as int;
    if in_run(s[r], c) {
        let (x, y) = choose|x: int, y: int| x <= c <= y && #[trigger] is_run(s[r], x, y);
        // A run that avoids both swapped cells was already a run before.
        if !(pa.row == r && x <= pa.col <= y) && !(pb.row == r && x <= pb.col <= y) {
            assert forall|j: int| x <= j <= y implies #[trigger] b[r][j] == s[r][j] by {}
            assert(is_run(b[r], x, y));
            assert(in_match(b, r, c));
        } else if pa.row == r && x <= pa.col <= y {
            assert(is_run(s[r], x, y));
            assert(in_run(s[pa.row as int], pa.col as int));
        } else {
            assert(in_run(s[pb.row as int], pb.col as int));
        }
    } else {
        let cl = column_of(s, c);
        let (x, y) = choose|x: int, y: int| x <= r <= y && #[trigger] is_run(cl, x, y);
        if !(pa.col == c && x <= pa.row <= y) && !(pb.col == c && x <= pb.row <= y) {
            assert forall|j: int| x <= j <= y implies #[trigger] column_of(b, c)[j] == cl[j] by {}
            assert(is_run(column_of(b, c), x, y));
            assert(in_match(b, r, c));
        } else if pa.col == c && x <= pa.row <= y {
            assert(column_of(s, pa.col as int) == cl);
            assert(in_run(column_of(s, pa.col as int), pa.row as int));
        } else {
            assert(column_of(s, pb.col as int) == cl);
            assert(in_run(column_of(s, pb.col as int), pb.row as int));
        }
    }
}

/// After gravity, placing every refill slot's kind and the entity spawned
/// for it leaves no cell empty: a cascade step ends on a full board.
pub proof fn law_refilled_board_is_full(
    k0: Seq<Seq<Option<GemType>>>,
    e0: Seq<Seq<Option<Entity>>>,
    k1: Seq<Seq<Option<GemType>>>,
    e1: Seq<Seq<Option<Entity>>>,
    refills: Seq<Refill>,
    entities: Seq<Entity>,
    p: GridPos,
)
    requires
        shaped(k1),
        shaped(e1),
        forall|q: GridPos| q.in_bounds() ==> (#[trigger] at(k1, q) is Some <==> at(e1, q) is Some),
        gravity_applied(k0, e0, k1, e1, refills),
        entities.len() == refills.len(),
        p.in_bounds(),
    ensures
        at(placed(k1, refill_positions(refills), refill_kinds(refills), refills.len()), p) is Some,
        at(placed(e1, refill_positions(refills), occupied_by(entities), refills.len()), p) is Some,
{
    let ps = refill_positions(refills);
    assert forall|i: int| 0 <= i < refills.len() implies (#[trigger] ps[i]).in_bounds()
        && refill_kinds(refills)[i] is Some && occupied_by(entities)[i] is Some by {
        assert(ps[i] == refills[i].pos);
    }
    if at(k1, p) is None {
        let i = choose|i: int| 0 <= i < refills.len() && refills[i].pos == p;
        assert(ps[i] == p);
    }
    lemma_placed_occupied(k1, ps, refill_kinds(refills), refills.len(), p);
    lemma_placed_occupied(e1, ps, occupied_by(entities), refills.len(), p);
}

/// A cell is reported as matched exactly when it lies in a match; an empty
/// cell never is.
pub proof fn law_pos_in_match_iff_listed(b: Seq<Seq<Option<GemType>>>, p: GridPos)
    requires
        shaped(b),
        p.in_bounds(),
    ensures
        in_match(b, p.row as int, p.col as int) <==> matched_cells(b).contains(p),
        at(b, p) is None ==> !matched_cells(b).contains(p),
{
    lemma_matched_cells(b);
    let m = matched_cells(b);
    if m.contains(p) {
        let i = choose|i: int| 0 <= i < m.len() && m[i] == p;
        assert(in_match(b, m[i].row as int, m[i].col as int));
        lemma_in_match_occupied(b, p.row as int, p.col as int);
    }
}

/// The board mirrored along its main diagonal: rows become columns.
pub open spec fn transpose<T>(b: Seq<Seq<T>>) -> Seq<Seq<T>> {
    Seq::new(GRID_COLS as nat, |r: int| Seq::new(GRID_ROWS as nat, |c: int| b[c][r]))
}

/// A position mirrored along the main diagonal.
pub open spec fn transpose_pos(p: GridPos) -> GridPos {
    GridPos { col: p.row, row: p.col }
}

/// Rows of the mirrored board are columns of the board and back.
proof fn lemma_transpose_lines<T>(b: Seq<Seq<T>>)
    requires
        shaped(b),
    ensures
        shaped(transpose(b)),
        forall|r: int| 0 <= r < GRID_COLS ==> #[trigger] transpose(b)[r] == column_of(b, r),
        forall|c: int| 0 <= c < GRID_ROWS ==> #[trigger] column_of(transpose(b), c) == b[c],
{
    let t = transpose(b);
    assert forall|r: int| 0 <= r < GRID_COLS implies #[trigger] t[r] == column_of(b, r) by {
        assert(t[r] =~= column_of(b, r));
    }
    assert forall|c: int| 0 <= c < GRID_ROWS implies #[trigger] column_of(t, c) == b[c] by {
        assert(column_of(t, c) =~= b[c]);
    }
}

/// A cell of the mirrored board lies in a match exactly when its mirror
/// cell of the board does.
pub proof fn law_transpose_in_match(b: Seq<Seq<Option<GemType>>>, p: GridPos)
    requires
        shaped(b),
        p.in_bounds(),
    ensures
        in_match(transpose(b), p.row as int, p.col as int) == in_match(b, p.col as int, p.row as int),
{
    lemma_transpose_lines(b);
}

/// Mirroring commutes with exchanging two cells.
proof fn lemma_transpose_swapped<T>(b: Seq<Seq<T>>, pa: GridPos, pb: GridPos)
    requires
        shaped(b),
        pa.in_bounds(),
        pb.in_bounds(),
    ensures
        swapped(transpose(b), pa, pb) == transpose(swapped(b, transpose_pos(pa), transpose_pos(pb))),
        shaped(swapped(b, transpose_pos(pa), transpose_pos(pb))),
{
    let l = swapped(transpose(b), pa, pb);
    let r = transpose(swapped(b, transpose_pos(pa), transpose_pos(pb)));
    assert forall|i: int| 0 <= i < GRID_ROWS implies l[i] =~= r[i] by {}
    assert(l =~= r);
    let s = swapped(b, transpose_pos(pa), transpose_pos(pb));
    assert forall|i: int| 0 <= i < GRID_ROWS implies (#[trigger] s[i]).len() == GRID_COLS by {}
}

/// A swap on the mirrored board is valid exactly when the mirrored swap is
/// valid on the board.
proof fn lemma_transpose_valid_swap(b: Seq<Seq<Option<GemType>>>, pa: GridPos, pb: GridPos)
    requires
        shaped(b),
    ensures
        valid_swap(transpose(b), pa, pb) == valid_swap(b, transpose_pos(pa), transpose_pos(pb)),
{
    if pa.in_bounds() && pb.in_bounds() {
        lemma_transpose_swapped(b, pa, pb);
        let s = swapped(b, transpose_pos(pa), transpose_pos(pb));
        law_transpose_in_match(s, pa);
        law_transpose_in_match(s, pb);
    }
}

/// Mirroring the board along its main diagonal changes neither whether a
/// valid move exists nor which cells match (up to mirroring them).
pub proof fn law_transpose_invariance(b: Seq<Seq<Option<GemType>>>)
    requires
        shaped(b),
    ensures
        has_valid_swap(transpose(b)) == has_valid_swap(b),
        forall|p: GridPos|
            p.in_bounds() ==> (#[trigger] matched_cells(transpose(b)).contains(p) == matched_cells(b).contains(
                transpose_pos(p),
            )),
{
    let t = transpose(b);
    lemma_transpose_lines(b);
    if has_valid_swap(t) {
        let (pa, pb) = choose|pa: GridPos, pb: GridPos| #[trigger] valid_swap(t, pa, pb);
        lemma_transpose_valid_swap(b, pa, pb);
        assert(valid_swap(b, transpose_pos(pa), transpose_pos(pb)));
    }
    if has_valid_swap(b) {
        let (qa, qb) = choose|qa: GridPos, qb: GridPos| #[trigger] valid_swap(b, qa, qb);
        lemma_transpose_valid_swap(b, transpose_pos(qa), transpose_pos(qb));
        assert(transpose_pos(transpose_pos(qa)) == qa);
        assert(transpose_pos(transpose_pos(qb)) == qb);
        assert(valid_swap(t, transpose_pos(qa), transpose_pos(qb)));
    }
    assert forall|p: GridPos| p.in_bounds() implies (#[trigger] matched_cells(t).contains(p) == matched_cells(b).contains(
        transpose_pos(p),
    )) by {
        law_pos_in_match_iff_listed(t, p);
        law_pos_in_match_iff_listed(b, transpose_pos(p));
        law_transpose_in_match(b, p);
    }
}

/// A cell's content with its gem kind renamed by `f`.
pub open spec fn relabel_cell(x: Option<GemType>, f: spec_fn(GemType) -> GemType) -> Option<GemType> {
    match x {
        Some(g) => Some(f(g)),
        None => None,
    }
}

/// A line with every gem kind renamed by `f`.
pub open spec fn relabel_line(l: Seq<Option<GemType>>, f: spec_fn(GemType) -> GemType) -> Seq<Option<GemType>> {
    Seq::new(l.len(), |i: int| relabel_cell(l[i], f))
}

/// The board with every gem kind renamed by `f`.
pub open spec fn relabel(b: Seq<Seq<Option<GemType>>>, f: spec_fn(GemType) -> GemType) -> Seq<Seq<Option<GemType>>> {
    Seq::new(b.len(), |r: int| relabel_line(b[r], f))
}

/// Renaming kinds one to one keeps every run a run, and makes no new ones.
proof fn lemma_relabel_in_run(l: Seq<Option<GemType>>, f: spec_fn(GemType) -> GemType, i: int)
    requires
        forall|x: GemType, y: GemType| #[trigger] f(x) == #[trigger] f(y) ==> x == y,
    ensures
        in_run(relabel_line(l, f), i) == in_run(l, i),
{
    let rl = relabel_line(l, f);
    assert forall|a: int, e: int| #[trigger] is_run(rl, a, e) == is_run(l, a, e) by {
        if 0 <= a <= e < l.len() {
            assert forall|j: int| a <= j <= e implies (rl[j] == rl[a] <==> l[j] == l[a]) by {
                assert(rl[j] == relabel_cell(l[j], f));
                assert(rl[a] == relabel_cell(l[a], f));
            }
            assert(rl[a] == relabel_cell(l[a], f));
            if is_run(l, a, e) {
                assert forall|j: int| a <= j <= e implies #[trigger] rl[j] == rl[a] by {
                    assert(l[j] == l[a]);
                }
            }
            if is_run(rl, a, e) {
                assert forall|j: int| a <= j <= e implies #[trigger] l[j] == l[a] by {
                    assert(rl[j] == rl[a]);
                }
            }
        }
    }
    if in_run(rl, i) {
        let (a, e) = choose|a: int, e: int| a <= i <= e && #[trigger] is_run(rl, a, e);
        assert(is_run(l, a, e));
    }
    if in_run(l, i) {
        let (a, e) = choose|a: int, e: int| a <= i <= e && #[trigger] is_run(l, a, e);
        assert(is_run(rl, a, e));
    }
}

/// Renaming kinds one to one keeps every match a match.
proof fn lemma_relabel_in_match(b: Seq<Seq<Option<GemType>>>, f: spec_fn(GemType) -> GemType, r: int, c: int)
    requires
        shaped(b),
        0 <= r < GRID_ROWS,
        0 <= c < GRID_COLS,
        forall|x: GemType, y: GemType| #[trigger] f(x) == #[trigger] f(y) ==> x == y,
    ensures
        in_match(relabel(b, f), r, c) == in_match(b, r, c),
{
    let rb = relabel(b, f);
    assert(rb[r] == relabel_line(b[r], f));
    assert(column_of(rb, c) =~= relabel_line(column_of(b, c), f));
    lemma_relabel_in_run(b[r], f, c);
    lemma_relabel_in_run(column_of(b, c), f, r);
}

/// Renaming kinds commutes with exchanging two cells.
proof fn lemma_relabel_swapped(b: Seq<Seq<Option<GemType>>>, f: spec_fn(GemType) -> GemType, pa: GridPos, pb: GridPos)
    requires
        shaped(b),
        pa.in_bounds(),
        pb.in_bounds(),
    ensures
        swapped(relabel(b, f), pa, pb) == relabel(swapped(b, pa, pb), f),
        shaped(swapped(b, pa, pb)),
{
    let l = swapped(relabel(b, f), pa, pb);
    let r = relabel(swapped(b, pa, pb), f);
    assert forall|i: int| 0 <= i < GRID_ROWS implies l[i] =~= r[i] by {}
    assert(l =~= r);
    let s = swapped(b, pa, pb);
    assert forall|i: int| 0 <= i < GRID_ROWS implies (#[trigger] s[i]).len() == GRID_COLS by {}
}

/// Renaming the gem kinds one to one (for instance swapping two colours)
/// changes neither whether a valid move exists nor which cells match.
pub proof fn law_relabel_invariance(b: Seq<Seq<Option<GemType>>>, f: spec_fn(GemType) -> GemType)
    requires
        shaped(b),
        forall|x: GemType, y: GemType| #[trigger] f(x) == #[trigger] f(y) ==> x == y,
    ensures
        has_valid_swap(relabel(b, f)) == has_valid_swap(b),
        forall|p: GridPos|
            p.in_bounds() ==> (#[trigger] matched_cells(relabel(b, f)).contains(p) == matched_cells(b).contains(p)),
{
    let rb = relabel(b, f);
    assert(shaped(rb));
    assert forall|pa: GridPos, pb: GridPos| #[trigger] valid_swap(rb, pa, pb) == valid_swap(b, pa, pb) by {
        if pa.in_bounds() && pb.in_bounds() {
            lemma_relabel_swapped(b, f, pa, pb);
            let s = swapped(b, pa, pb);
            lemma_relabel_in_match(s, f, pa.row as int, pa.col as int);
            lemma_relabel_in_match(s, f, pb.row as int, pb.col as int);
            assert(at(rb, pa) == relabel_cell(at(b, pa), f));
            assert(at(rb, pb) == relabel_cell(at(b, pb), f));
        }
    }
    if has_valid_swap(rb) {
        let (pa, pb) = choose|pa: GridPos, pb: GridPos| #[trigger] valid_swap(rb, pa, pb);
        assert(valid_swap(b, pa, pb));
    }
    if has_valid_swap(b) {
        let (pa, pb) = choose|pa: GridPos, pb: GridPos| #[trigger] valid_swap(b, pa, pb);
        assert(valid_swap(rb, pa, pb));
    }
    assert forall|p: GridPos| p.in_bounds() implies (#[trigger] matched_cells(rb).contains(p) == matched_cells(b).contains(p)) by {
        law_pos_in_match_iff_listed(rb, p);
        law_pos_in_match_iff_listed(b, p);
        lemma_relabel_in_match(b, f, p.row as int, p.col as int);
    }
}

/// The five kinds of [`GemType::ALL`] are distinct, and each is one of them.
proof fn lemma_all_kinds(g: GemType)
    ensures
        GemType::ALL@.len() == 5,
        forall|a: int, b: int|
            0 <= a < 5 && 0 <= b < 5 ==> (GemType::ALL@[a] == GemType::ALL@[b] <==> a == b),
        exists|a: int| 0 <= a < 5 && GemType::ALL@[a] == g,
{
    assert(GemType::ALL@ =~= seq![
        GemType::Red,
        GemType::Blue,
        GemType::Green,
        GemType::Yellow,
        GemType::Purple,
    ]);
    match g {
        GemType::Red => assert(GemType::ALL@[0] == g),
        GemType::Blue => assert(GemType::ALL@[1] == g),
        GemType::Green => assert(GemType::ALL@[2] == g),
        GemType::Yellow => assert(GemType::ALL@[3] == g),
        GemType::Purple => assert(GemType::ALL@[4] == g),
    }
}

/// Two gravity passes over the same boards leave the same cells empty, so
/// each refills a cell exactly when the other does.
proof fn lemma_same_refill_cells(
    k0: Seq<Seq<Option<GemType>>>,
    e0: Seq<Seq<Option<Entity>>>,
    k1: Seq<Seq<Option<GemType>>>,
    e1: Seq<Seq<Option<Entity>>>,
    r1: Seq<Refill>,
    k2: Seq<Seq<Option<GemType>>>,
    e2: Seq<Seq<Option<Entity>>>,
    r2: Seq<Refill>,
)
    requires
        shaped(k1),
        shaped(k2),
        gravity_applied(k0, e0, k1, e1, r1),
        gravity_applied(k0, e0, k2, e2, r2),
    ensures
        forall|p: GridPos|
            #[trigger] refill_positions(r1).contains(p) ==> refill_positions(r2).contains(p),
{
    assert forall|p: GridPos| #[trigger] refill_positions(r1).contains(p) implies refill_positions(
        r2,
    ).contains(p) by {
        let i = choose|i: int| 0 <= i < r1.len() && refill_positions(r1)[i] == p;
        assert(r1[i].pos == p);
        assert(column_of(k1, p.col as int)[p.row as int] == column_of(k2, p.col as int)[p.row as int]);
        assert(at(k2, p) is None);
        let j = choose|j: int| 0 <= j < r2.len() && r2[j].pos == p;
        assert(refill_positions(r2)[j] == p);
    }
}

/// New gems follow their draws. Two gravity passes over the same boards
/// refill the same cells (the same positions are listed in both); a refilled cell gets the same kind in both exactly
/// when its two draws agree modulo five; and every refilled cell is on the
/// board, where [`law_every_kind_drawable`] lets any kind be drawn.
pub proof fn law_refill_kinds_follow_draws(
    k0: Seq<Seq<Option<GemType>>>,
    e0: Seq<Seq<Option<Entity>>>,
    k1: Seq<Seq<Option<GemType>>>,
    e1: Seq<Seq<Option<Entity>>>,
    r1: Seq<Refill>,
    d1: [[usize; GRID_COLS]; GRID_ROWS],
    k2: Seq<Seq<Option<GemType>>>,
    e2: Seq<Seq<Option<Entity>>>,
    r2: Seq<Refill>,
    d2: [[usize; GRID_COLS]; GRID_ROWS],
)
    requires
        shaped(k0),
        shaped(k1),
        shaped(k2),
        gravity_applied(k0, e0, k1, e1, r1),
        refills_drawn(r1, d1),
        gravity_applied(k0, e0, k2, e2, r2),
        refills_drawn(r2, d2),
    ensures
        forall|p: GridPos|
            #![trigger refill_positions(r1).contains(p)]
            #![trigger refill_positions(r2).contains(p)]
            refill_positions(r1).contains(p) <==> refill_positions(r2).contains(p),
        forall|i: int, j: int|
            0 <= i < r1.len() && 0 <= j < r2.len() && #[trigger] r1[i].pos == #[trigger] r2[j].pos
                ==> (r1[i].kind == r2[j].kind <==> d1[r1[i].pos.row as int][r1[i].pos.col as int] % 5
                == d2[r1[i].pos.row as int][r1[i].pos.col as int] % 5),
        forall|i: int| 0 <= i < r1.len() ==> (#[trigger] r1[i]).pos.in_bounds(),
{
    lemma_same_refill_cells(k0, e0, k1, e1, r1, k2, e2, r2);
    lemma_same_refill_cells(k0, e0, k2, e2, r2, k1, e1, r1);
    lemma_refills_in_bounds(k0, e0, k1, e1, r1);
    lemma_refill_kinds_agree(r1, d1, r2, d2);
}

/// Every refilled cell is on the board.
proof fn lemma_refills_in_bounds(
    k0: Seq<Seq<Option<GemType>>>,
    e0: Seq<Seq<Option<Entity>>>,
    k1: Seq<Seq<Option<GemType>>>,
    e1: Seq<Seq<Option<Entity>>>,
    r1: Seq<Refill>,
)
    requires
        gravity_applied(k0, e0, k1, e1, r1),
    ensures
        forall|i: int| 0 <= i < r1.len() ==> (#[trigger] r1[i]).pos.in_bounds(),
{
}

/// Refills of the same cell under two draws agree exactly when the draws do
/// modulo five.
proof fn lemma_refill_kinds_agree(
    r1: Seq<Refill>,
    d1: [[usize; GRID_COLS]; GRID_ROWS],
    r2: Seq<Refill>,
    d2: [[usize; GRID_COLS]; GRID_ROWS],
)
    requires
        refills_drawn(r1, d1),
        refills_drawn(r2, d2),
    ensures
        forall|i: int, j: int|
            0 <= i < r1.len() && 0 <= j < r2.len() && #[trigger] r1[i].pos == #[trigger] r2[j].pos
                ==> (r1[i].kind == r2[j].kind <==> d1[r1[i].pos.row as int][r1[i].pos.col as int] % 5
                == d2[r1[i].pos.row as int][r1[i].pos.col as int] % 5),
{
    lemma_all_kinds(GemType::Red);
    assert forall|i: int, j: int|
        0 <= i < r1.len() && 0 <= j < r2.len() && #[trigger] r1[i].pos == #[trigger] r2[j].pos
            implies (r1[i].kind == r2[j].kind <==> d1[r1[i].pos.row as int][r1[i].pos.col as int] % 5
            == d2[r1[i].pos.row as int][r1[i].pos.col as int] % 5) by {
        let p = r1[i].pos;
        assert(r1[i].kind == drawn_kind(d1, p));
        assert(r2[j].kind == drawn_kind(d2, p));
    }
}

/// Any kind can be drawn for any cell: for every cell on the board and every
/// kind, some draws below five pick that kind there.
pub proof fn law_every_kind_drawable()
    ensures
        forall|p: GridPos, g: GemType|
            #![trigger p.in_bounds(), GemType::ALL@.contains(g)]
            p.in_bounds() && GemType::ALL@.contains(g) ==> exists|
                d: [[usize; GRID_COLS]; GRID_ROWS],
            | draws_below(d, 5) && #[trigger] drawn_kind(d, p) == g,
{
    assert forall|p: GridPos, g: GemType|
        #![trigger p.in_bounds(), GemType::ALL@.contains(g)]
        p.in_bounds() && GemType::ALL@.contains(g) implies exists|
            d: [[usize; GRID_COLS]; GRID_ROWS],
        | draws_below(d, 5) && #[trigger] drawn_kind(d, p) == g by {
        lemma_all_kinds(g);
        let a = choose|a: int| 0 <= a < 5 && GemType::ALL@[a] == g;
        let d: [[usize; GRID_COLS]; GRID_ROWS] = [[a as usize; GRID_COLS]; GRID_ROWS];
        assert(d[p.row as int][p.col as int] == a);
        assert(drawn_kind(d, p) == g);
        assert(draws_below(d, 5));
    }
}

/// Nothing limits the kind of the first cell: all five kinds are allowed
/// there.
proof fn lemma_first_cell_allows_all()
    ensures
        allowed_kinds(empty_board(), 0, 0) == GemType::ALL@,
{
    reveal_with_fuel(Seq::filter, 6);
    let f = fits_at(empty_board(), 0, 0);
    assert(GemType::ALL@.filter(f) =~= GemType::ALL@);
}

/// The board after `n` cells are filled keeps its shape, and from the first
/// cell on its top-left cell stays as the first fill left it.
proof fn lemma_first_cell_kept(draws: [[usize; GRID_COLS]; GRID_ROWS], n: nat)
    requires
        n <= GRID_ROWS * GRID_COLS,
    ensures
        shaped(board_after(draws, n)),
        n >= 1 ==> board_after(draws, n)[0][0] == board_after(draws, 1)[0][0],
    decreases n,
{
    if n > 0 {
        lemma_first_cell_kept(draws, (n - 1) as nat);
        let prev = board_after(draws, (n - 1) as nat);
        let p = pos_of(n - 1);
        crate::board::lemma_pos_of(n - 1);
        let b = board_after(draws, n);
        assert forall|r: int| 0 <= r < GRID_ROWS implies (#[trigger] b[r]).len() == GRID_COLS by {}
        if n > 1 {
            if p.row == 0 {
                assert(p.col != 0);
            }
            assert(b[0][0] == prev[0][0]);
        }
    } else {
        assert(shaped(empty_board()));
    }
}

/// A new layout starts at the top-left cell with the kind of
/// [`GemType::ALL`] at that cell's draw modulo five, whatever the other
/// draws are. Every kind can therefore start a layout, and draws that differ
/// there modulo five give different layouts.
pub proof fn law_layout_first_cell_follows_draw(
    d1: [[usize; GRID_COLS]; GRID_ROWS],
    d2: [[usize; GRID_COLS]; GRID_ROWS],
)
    ensures
        board_after(d1, (GRID_ROWS * GRID_COLS) as nat)[0][0] == Some(GemType::ALL@[d1[0][0] as int % 5]),
        d1[0][0] % 5 != d2[0][0] % 5 ==> board_after(d1, (GRID_ROWS * GRID_COLS) as nat) != board_after(
            d2,
            (GRID_ROWS * GRID_COLS) as nat,
        ),
{
    lemma_all_kinds(GemType::Red);
    lemma_first_cell_kept(d1, (GRID_ROWS * GRID_COLS) as nat);
    lemma_first_cell_kept(d2, (GRID_ROWS * GRID_COLS) as nat);
    lemma_first_fill(d1);
    lemma_first_fill(d2);
}

/// The first fill puts the kind of [`GemType::ALL`] at the first draw modulo
/// five in the top-left cell.
proof fn lemma_first_fill(d: [[usize; GRID_COLS]; GRID_ROWS])
    ensures
        board_after(d, 1)[0][0] == Some(GemType::ALL@[d[0][0] as int % 5]),
{
    lemma_first_cell_allows_all();
    lemma_all_kinds(GemType::Red);
    let prev = board_after(d, 0);
    assert(prev == empty_board());
    let p = pos_of(0);
    assert(p.col == 0 && p.row == 0);
    let allowed = allowed_kinds(prev, 0, 0);
    assert(allowed.len() == 5);
    let v = Some(allowed[d[0][0] as int % 5]);
    assert(board_after(d, 1) == with_cell(prev, p, v));
    assert(prev[0].len() == GRID_COLS);
    assert(with_cell(prev, p, v)[0][0] == v);
}

} // verus!
