//! The game board: grid data, gem addresses, and match detection.
//!
//! - [`Grid`]: entity handles and gem kinds for every cell.
//! - [`GridPos`]: a cell's (col, row) address.

use vstd::prelude::*;

use crate::gems::GemType;
use crate::runs::{in_run, find_run_indices, same_cell, lemma_maximal_block};
use crate::game_logic::MINIMUM_MATCH;
use bevy::ecs::entity::Entity;

verus! {

pub const GRID_COLS: usize = 8;
pub const GRID_ROWS: usize = 8;

/// Declares bevy's `Entity`, the handle of a gem entity, so that the grid can
/// carry handles. Nothing is claimed of it: Verus sees no field of a handle,
/// and the grid only stores, moves and returns handles.
#[verifier::external_type_specification]
#[verifier::external_body]
pub struct ExEntity(Entity);

/// A gem's address on the board grid.
///
/// `col` increases to the right; `row` increases **downward** (row 0 is the
/// top).
#[derive(Debug, Clone, Copy, PartialEq, Eq, Hash, Default, Structural)]
pub struct GridPos {
    pub col: usize,
    pub row: usize,
}

impl GridPos {
    /// The position lies on the board.
    pub open spec fn in_bounds(self) -> bool {
        self.col < GRID_COLS && self.row < GRID_ROWS
    }

    /// The two positions share an edge.
    pub open spec fn adjacent(self, other: GridPos) -> bool {
        ||| (self.row == other.row && (self.col + 1 == other.col || other.col + 1 == self.col))
        ||| (self.col == other.col && (self.row + 1 == other.row || other.row + 1 == self.row))
    }

    pub fn new(col: usize, row: usize) -> (p: Self)
        ensures
            p.col == col,
            p.row == row,
    {
        Self { col, row }
    }

    pub fn is_adjacent(self, other: GridPos) -> (r: bool)
        ensures
            r == self.adjacent(other),
    {
        let col_diff = if self.col >= other.col { self.col - other.col } else { other.col - self.col };
        let row_diff = if self.row >= other.row { self.row - other.row } else { other.row - self.row };
        (col_diff == 1 && row_diff == 0) || (col_diff == 0 && row_diff == 1)
    }
}

// ---------------------------------------------------------------------------
// The board as a mathematical object: a sequence of rows of cells.
// ---------------------------------------------------------------------------

/// `b` has `GRID_ROWS` rows of `GRID_COLS` cells each.
pub open spec fn shaped<T>(b: Seq<Seq<T>>) -> bool {
    &&& b.len() == GRID_ROWS
    &&& forall|r: int| 0 <= r < GRID_ROWS ==> (#[trigger] b[r]).len() == GRID_COLS
}

/// The cell of `b` at `p`.
pub open spec fn at<T>(b: Seq<Seq<T>>, p: GridPos) -> T {
    b[p.row as int][p.col as int]
}

/// `b` with the cell at `p` replaced by `v`.
pub open spec fn with_cell<T>(b: Seq<Seq<T>>, p: GridPos, v: T) -> Seq<Seq<T>> {
    b.update(p.row as int, b[p.row as int].update(p.col as int, v))
}

/// `b` with the contents of the cells at `pa` and `pb` exchanged.
pub open spec fn swapped<T>(b: Seq<Seq<T>>, pa: GridPos, pb: GridPos) -> Seq<Seq<T>> {
    with_cell(with_cell(b, pa, at(b, pb)), pb, at(b, pa))
}

/// Column `c` of `b`, top to bottom.
pub open spec fn column_of<T>(b: Seq<Seq<T>>, c: int) -> Seq<T> {
    Seq::new(b.len(), |r: int| b[r][c])
}

/// The cell at `(r, c)` holds a gem that lies in a horizontal or vertical run
/// of at least `MINIMUM_MATCH` equal gems.
pub open spec fn in_match(b: Seq<Seq<Option<GemType>>>, r: int, c: int) -> bool {
    in_run(b[r], c) || in_run(column_of(b, c), r)
}

/// Swapping the cells at `pa` and `pb` leaves one of them in a match.
pub open spec fn swap_makes_match(b: Seq<Seq<Option<GemType>>>, pa: GridPos, pb: GridPos) -> bool {
    let s = swapped(b, pa, pb);
    in_match(s, pa.row as int, pa.col as int) || in_match(s, pb.row as int, pb.col as int)
}

/// Swapping the adjacent, occupied cells `pa` and `pb` creates a match.
pub open spec fn valid_swap(b: Seq<Seq<Option<GemType>>>, pa: GridPos, pb: GridPos) -> bool {
    &&& pa.in_bounds()
    &&& pb.in_bounds()
    &&& pa.adjacent(pb)
    &&& at(b, pa) is Some
    &&& at(b, pb) is Some
    &&& swap_makes_match(b, pa, pb)
}

/// Some swap on the board creates a match.
pub open spec fn has_valid_swap(b: Seq<Seq<Option<GemType>>>) -> bool {
    exists|pa: GridPos, pb: GridPos| #[trigger] valid_swap(b, pa, pb)
}

/// An entities array as a sequence of rows.
pub open spec fn handles_view(e: [[Option<Entity>; GRID_COLS]; GRID_ROWS]) -> Seq<Seq<Option<Entity>>> {
    Seq::new(GRID_ROWS as nat, |r: int| e[r]@)
}

/// Every cell of the two arrays holds an entity exactly when it holds a gem
/// kind.
pub open spec fn consistent(
    kinds: [[Option<GemType>; GRID_COLS]; GRID_ROWS],
    entities: [[Option<Entity>; GRID_COLS]; GRID_ROWS],
) -> bool {
    forall|r: int, c: int|
        0 <= r < GRID_ROWS && 0 <= c < GRID_COLS ==> (#[trigger] kinds[r][c] is Some <==> entities[r][c] is Some)
}

/// A kinds array as a sequence of rows.
pub open spec fn kinds_seq(k: [[Option<GemType>; GRID_COLS]; GRID_ROWS]) -> Seq<Seq<Option<GemType>>> {
    Seq::new(GRID_ROWS as nat, |r: int| k[r]@)
}

/// `b` with `pos` holding `kind` and, where `overlay` names another cell, that
/// cell holding the overlay's kind: the board as a swap under consideration
/// would leave it.
pub open spec fn overlaid(
    b: Seq<Seq<Option<GemType>>>,
    pos: GridPos,
    kind: GemType,
    overlay: Option<(GridPos, GemType)>,
) -> Seq<Seq<Option<GemType>>> {
    let h = with_cell(b, pos, Some(kind));
    match overlay {
        Some((p, k)) => with_cell(h, p, Some(k)),
        None => h,
    }
}

/// The kind in cell `(r, c)`, reading `overlay` in place of the array where
/// it names that cell.
fn cell_lookup(
    kinds: &[[Option<GemType>; GRID_COLS]; GRID_ROWS],
    r: usize,
    c: usize,
    overlay: Option<(GridPos, GemType)>,
) -> (k: Option<GemType>)
    requires
        r < GRID_ROWS,
        c < GRID_COLS,
    ensures
        k == (match overlay {
            Some((p, g)) => if p.row == r && p.col == c { Some(g) } else { kinds[r as int][c as int] },
            None => kinds[r as int][c as int],
        }),
{
    match overlay {
        Some((p, g)) => {
            if p.row == r && p.col == c {
                Some(g)
            } else {
                kinds[r][c]
            }
        },
        None => kinds[r][c],
    }
}

/// The position of the `i`-th cell when cells are read row by row.
pub open spec fn pos_of(i: int) -> GridPos {
    GridPos { col: (i % GRID_COLS as int) as usize, row: (i / GRID_COLS as int) as usize }
}

/// Every board position, row by row.
pub open spec fn all_positions() -> Seq<GridPos> {
    Seq::new((GRID_ROWS * GRID_COLS) as nat, |i: int| pos_of(i))
}

/// The predicate "lies in a match on `b`".
pub open spec fn matched_on(b: Seq<Seq<Option<GemType>>>) -> spec_fn(GridPos) -> bool {
    |p: GridPos| in_match(b, p.row as int, p.col as int)
}

/// Every position that lies in a match on `b`, row by row, each once.
pub open spec fn matched_cells(b: Seq<Seq<Option<GemType>>>) -> Seq<GridPos> {
    all_positions().filter(matched_on(b))
}

/// The predicate "holds something".
pub open spec fn is_gem<T>() -> spec_fn(Option<T>) -> bool {
    |x: Option<T>| x is Some
}

/// `col` after gravity: its occupied cells, in their order, packed at the
/// end (the bottom), with empty cells above them.
pub open spec fn settled<T>(col: Seq<Option<T>>) -> Seq<Option<T>> {
    let gems = col.filter(is_gem::<T>());
    Seq::new((col.len() - gems.len()) as nat, |i: int| None::<T>) + gems
}

/// The number of empty cells in `col`.
pub open spec fn gap<T>(col: Seq<Option<T>>) -> int {
    col.len() - col.filter(is_gem::<T>()).len()
}

/// A position's index when cells are read column by column.
pub open spec fn col_major(p: GridPos) -> int {
    p.col * GRID_ROWS + p.row
}

/// A cell emptied by gravity, to be filled with a new gem that falls in from
/// `drop_steps` cells above it.
#[derive(Debug, Clone, Copy, PartialEq, Eq)]
pub struct Refill {
    pub pos: GridPos,
    pub kind: GemType,
    pub drop_steps: usize,
}

/// Two columns with gems in the same cells keep equally many of them.
pub proof fn lemma_filter_same_len<A, B>(a: Seq<Option<A>>, b: Seq<Option<B>>)
    requires
        a.len() == b.len(),
        forall|i: int| 0 <= i < a.len() ==> (#[trigger] a[i] is Some <==> b[i] is Some),
    ensures
        a.filter(is_gem::<A>()).len() == b.filter(is_gem::<B>()).len(),
    decreases a.len(),
{
    reveal(Seq::filter);
    if a.len() > 0 {
        lemma_filter_same_len(a.drop_last(), b.drop_last());
    }
}

/// Exchanging the same two cells twice restores the board.
pub proof fn lemma_swap_involution<T>(b: Seq<Seq<T>>, pa: GridPos, pb: GridPos)
    requires
        shaped(b),
        pa.in_bounds(),
        pb.in_bounds(),
    ensures
        swapped(swapped(b, pa, pb), pa, pb) == b,
{
    let s = swapped(swapped(b, pa, pb), pa, pb);
    assert forall|r: int| 0 <= r < b.len() implies s[r] =~= b[r] by {}
    assert(s =~= b);
}

/// `refills` and the boards `(k1, e1)` are what gravity makes of the boards
/// `(k0, e0)`: every column is settled, and the refill slots are exactly the
/// cells left empty, column by column and top to bottom, each starting to
/// fall from as many cells above as its column has empty cells below and
/// including it.
pub open spec fn gravity_applied(
    k0: Seq<Seq<Option<GemType>>>,
    e0: Seq<Seq<Option<Entity>>>,
    k1: Seq<Seq<Option<GemType>>>,
    e1: Seq<Seq<Option<Entity>>>,
    refills: Seq<Refill>,
) -> bool {
    &&& forall|c: int| 0 <= c < GRID_COLS ==> #[trigger] column_of(k1, c) == settled(column_of(k0, c))
    &&& forall|c: int| 0 <= c < GRID_COLS ==> #[trigger] column_of(e1, c) == settled(column_of(e0, c))
    &&& forall|i: int|
        0 <= i < refills.len() ==> {
            let p = (#[trigger] refills[i]).pos;
            &&& p.in_bounds()
            &&& at(k1, p) is None
            &&& refills[i].drop_steps == gap(column_of(k0, p.col as int)) - p.row
        }
    &&& forall|i: int, j: int|
        0 <= i < j < refills.len() ==> col_major(refills[i].pos) < col_major(refills[j].pos)
    &&& forall|p: GridPos|
        p.in_bounds() && #[trigger] at(k1, p) is None ==> exists|i: int|
            0 <= i < refills.len() && refills[i].pos == p
}

/// The kind that the draw for cell `p` picks: the entry of
/// [`GemType::ALL`] at the draw modulo five.
pub open spec fn drawn_kind(draws: [[usize; GRID_COLS]; GRID_ROWS], p: GridPos) -> GemType {
    GemType::ALL@[draws[p.row as int][p.col as int] as int % 5]
}

/// Every refill takes the kind that the draw for its cell picks.
pub open spec fn refills_drawn(refills: Seq<Refill>, draws: [[usize; GRID_COLS]; GRID_ROWS]) -> bool {
    forall|i: int| 0 <= i < refills.len() ==> (#[trigger] refills[i]).kind == drawn_kind(draws, refills[i].pos)
}

/// `b` with every cell emptied that lies in a match on the kinds board `k`.
pub open spec fn cleared<X>(b: Seq<Seq<Option<X>>>, k: Seq<Seq<Option<GemType>>>) -> Seq<Seq<Option<X>>> {
    Seq::new(
        b.len(),
        |r: int| Seq::new(b[r].len(), |c: int| if in_match(k, r, c) { None } else { b[r][c] }),
    )
}

/// A cell in a match holds a gem.
pub proof fn lemma_in_match_occupied(b: Seq<Seq<Option<GemType>>>, r: int, c: int)
    requires
        shaped(b),
        0 <= r < GRID_ROWS,
        0 <= c < GRID_COLS,
        in_match(b, r, c),
    ensures
        b[r][c] is Some,
{
    if b[r][c] is None {
        crate::runs::lemma_empty_not_in_run(b[r], c);
        crate::runs::lemma_empty_not_in_run(column_of(b, c), r);
    }
}

/// `pos_of` walks the board row by row: the `i`-th position is in bounds and
/// has row-major index `i`.
pub proof fn lemma_pos_of(i: int)
    requires
        0 <= i < GRID_ROWS * GRID_COLS,
    ensures
        pos_of(i).in_bounds(),
        row_major(pos_of(i)) == i,
{
}

/// The row-major index tells positions on the board apart.
pub proof fn lemma_row_major_injective(p: GridPos, q: GridPos)
    requires
        p.in_bounds(),
        q.in_bounds(),
        row_major(p) == row_major(q),
    ensures
        p == q,
{
}

/// The first `n` positions, filtered by "lies in a match", are in strictly
/// increasing row-major order, all in matches, and hold every matched cell
/// of row-major index below `n`.
proof fn lemma_matched_prefix(b: Seq<Seq<Option<GemType>>>, n: int)
    requires
        0 <= n <= GRID_ROWS * GRID_COLS,
    ensures
        ({
            let m = all_positions().take(n).filter(matched_on(b));
            &&& forall|i: int, j: int| 0 <= i < j < m.len() ==> row_major(m[i]) < row_major(m[j])
            &&& forall|i: int|
                0 <= i < m.len() ==> (#[trigger] m[i]).in_bounds() && in_match(b, m[i].row as int, m[i].col as int)
                    && row_major(m[i]) < n
            &&& forall|p: GridPos|
                p.in_bounds() && row_major(p) < n && in_match(b, p.row as int, p.col as int)
                    ==> #[trigger] m.contains(p)
        }),
    decreases n,
{
    reveal(Seq::filter);
    let all = all_positions();
    if n > 0 {
        lemma_matched_prefix(b, n - 1);
        assert(all.take(n).drop_last() =~= all.take(n - 1));
        lemma_pos_of(n - 1);
        let prev = all.take(n - 1).filter(matched_on(b));
        let m = all.take(n).filter(matched_on(b));
        let x = pos_of(n - 1);
        assert(all.take(n).last() == x);
        assert forall|p: GridPos|
            p.in_bounds() && row_major(p) < n && in_match(b, p.row as int, p.col as int)
                implies #[trigger] m.contains(p) by {
            if row_major(p) == n - 1 {
                lemma_row_major_injective(p, x);
                assert(m[m.len() - 1] == p);
            } else {
                assert(prev.contains(p));
                let k = choose|k: int| 0 <= k < prev.len() && prev[k] == p;
                assert(m[k] == p);
            }
        }
    }
}

/// [`matched_cells`] lists every cell that lies in a match, each once, in
/// row-major order, and nothing else.
pub proof fn lemma_matched_cells(b: Seq<Seq<Option<GemType>>>)
    ensures
        ({
            let m = matched_cells(b);
            &&& forall|i: int, j: int| 0 <= i < j < m.len() ==> row_major(m[i]) < row_major(m[j])
            &&& forall|i: int|
                0 <= i < m.len() ==> (#[trigger] m[i]).in_bounds() && in_match(b, m[i].row as int, m[i].col as int)
            &&& forall|p: GridPos|
                p.in_bounds() && in_match(b, p.row as int, p.col as int) ==> #[trigger] m.contains(p)
            &&& m.no_duplicates()
        }),
{
    let all = all_positions();
    lemma_matched_prefix(b, GRID_ROWS * GRID_COLS);
    assert(all.take((GRID_ROWS * GRID_COLS) as int) =~= all);
    let m = matched_cells(b);
    assert forall|p: GridPos| p.in_bounds() && in_match(b, p.row as int, p.col as int) implies #[trigger] m.contains(p) by {
        assert(row_major(p) < GRID_ROWS * GRID_COLS);
    }
}

/// `b` after writing `vals[i]` at `ps[i]` for each `i < n`, in order.
pub open spec fn placed<T>(b: Seq<Seq<T>>, ps: Seq<GridPos>, vals: Seq<T>, n: nat) -> Seq<Seq<T>>
    decreases n,
{
    if n == 0 {
        b
    } else {
        with_cell(placed(b, ps, vals, (n - 1) as nat), ps[n - 1], vals[n - 1])
    }
}

/// The positions of `refills`.
pub open spec fn refill_positions(refills: Seq<Refill>) -> Seq<GridPos> {
    refills.map_values(|r: Refill| r.pos)
}

/// The kinds of `refills`, each as an occupied cell.
pub open spec fn refill_kinds(refills: Seq<Refill>) -> Seq<Option<GemType>> {
    refills.map_values(|r: Refill| Some(r.kind))
}

/// `entities`, each as an occupied cell.
pub open spec fn occupied_by(entities: Seq<Entity>) -> Seq<Option<Entity>> {
    entities.map_values(|e: Entity| Some(e))
}

/// The entities of a full board as a board.
pub open spec fn handles_seq(entities: [[Entity; GRID_COLS]; GRID_ROWS]) -> Seq<Seq<Option<Entity>>> {
    Seq::new(GRID_ROWS as nat, |r: int| Seq::new(GRID_COLS as nat, |c: int| Some(entities[r][c])))
}

/// Writing only occupied cells over the listed positions leaves occupied
/// every cell that was occupied or is listed.
pub proof fn lemma_placed_occupied<T>(b: Seq<Seq<Option<T>>>, ps: Seq<GridPos>, vals: Seq<Option<T>>, n: nat, p: GridPos)
    requires
        shaped(b),
        n <= ps.len(),
        n <= vals.len(),
        forall|i: int| 0 <= i < n ==> (#[trigger] ps[i]).in_bounds() && vals[i] is Some,
        p.in_bounds(),
        at(b, p) is Some || exists|i: int| 0 <= i < n && ps[i] == p,
    ensures
        at(placed(b, ps, vals, n), p) is Some,
        shaped(placed(b, ps, vals, n)),
    decreases n,
{
    if n > 0 {
        let prev = placed(b, ps, vals, (n - 1) as nat);
        if ps[n - 1] == p {
            if at(b, p) is Some || exists|i: int| 0 <= i < n - 1 && ps[i] == p {
                lemma_placed_occupied(b, ps, vals, (n - 1) as nat, p);
            } else {
                lemma_placed_shaped(b, ps, vals, (n - 1) as nat);
            }
        } else {
            if !(at(b, p) is Some) {
                let i = choose|i: int| 0 <= i < n && ps[i] == p;
                assert(i < n - 1);
            }
            lemma_placed_occupied(b, ps, vals, (n - 1) as nat, p);
        }
        let q = ps[n - 1];
        assert(q.in_bounds());
        assert forall|r: int| 0 <= r < GRID_ROWS implies (#[trigger] placed(b, ps, vals, n)[r]).len() == GRID_COLS by {}
    }
}

/// Writing cells in bounds keeps a board's shape.
pub proof fn lemma_placed_shaped<T>(b: Seq<Seq<T>>, ps: Seq<GridPos>, vals: Seq<T>, n: nat)
    requires
        shaped(b),
        n <= ps.len(),
        forall|i: int| 0 <= i < n ==> (#[trigger] ps[i]).in_bounds(),
    ensures
        shaped(placed(b, ps, vals, n)),
    decreases n,
{
    if n > 0 {
        lemma_placed_shaped(b, ps, vals, (n - 1) as nat);
        let q = ps[n - 1];
        assert(q.in_bounds());
        assert forall|r: int| 0 <= r < GRID_ROWS implies (#[trigger] placed(b, ps, vals, n)[r]).len() == GRID_COLS by {}
    }
}

/// No more cells match than the board has.
pub proof fn lemma_matched_cells_bounded(b: Seq<Seq<Option<GemType>>>)
    ensures
        matched_cells(b).len() <= GRID_ROWS * GRID_COLS,
{
    all_positions().lemma_filter_len(matched_on(b));
}

/// The cell to the right of `p`.
pub open spec fn right_of(p: GridPos) -> GridPos {
    GridPos { col: (p.col + 1) as usize, row: p.row }
}

/// The cell below `p`.
pub open spec fn below(p: GridPos) -> GridPos {
    GridPos { col: p.col, row: (p.row + 1) as usize }
}

/// No swap of `p` with its right or lower neighbour creates a match.
pub open spec fn no_move_from(b: Seq<Seq<Option<GemType>>>, p: GridPos) -> bool {
    !valid_swap(b, p, right_of(p)) && !valid_swap(b, p, below(p))
}

/// Writing a cell's own content back leaves the board unchanged.
pub proof fn lemma_with_cell_same<T>(b: Seq<Seq<T>>, p: GridPos)
    requires
        shaped(b),
        p.in_bounds(),
    ensures
        with_cell(b, p, at(b, p)) == b,
{
    let w = with_cell(b, p, at(b, p));
    assert(w[p.row as int] =~= b[p.row as int]);
    assert(w =~= b);
}

/// Writes to two different cells commute.
pub proof fn lemma_with_cell_commute<T>(b: Seq<Seq<T>>, p: GridPos, q: GridPos, x: T, y: T)
    requires
        shaped(b),
        p.in_bounds(),
        q.in_bounds(),
        p != q,
    ensures
        with_cell(with_cell(b, p, x), q, y) == with_cell(with_cell(b, q, y), p, x),
{
    let l = with_cell(with_cell(b, p, x), q, y);
    let r = with_cell(with_cell(b, q, y), p, x);
    assert forall|i: int| 0 <= i < b.len() implies l[i] =~= r[i] by {}
    assert(l =~= r);
}

/// Exchanging `pa` with `pb` is the same as exchanging `pb` with `pa`.
pub proof fn lemma_swapped_symmetric<T>(b: Seq<Seq<T>>, pa: GridPos, pb: GridPos)
    requires
        shaped(b),
        pa.in_bounds(),
        pb.in_bounds(),
    ensures
        swapped(b, pa, pb) == swapped(b, pb, pa),
{
    if pa != pb {
        lemma_with_cell_commute(b, pa, pb, at(b, pb), at(b, pa));
        lemma_with_cell_commute(with_cell(b, pa, at(b, pb)), pb, pa, at(b, pa), at(b, pb));
        assert(with_cell(with_cell(b, pb, at(b, pa)), pa, at(b, pb)) == with_cell(
            with_cell(b, pa, at(b, pb)),
            pb,
            at(b, pa),
        ));
    }
}

/// Whether a swap is valid does not depend on the order of the two cells.
pub proof fn lemma_valid_swap_symmetric(b: Seq<Seq<Option<GemType>>>, pa: GridPos, pb: GridPos)
    requires
        shaped(b),
    ensures
        valid_swap(b, pa, pb) == valid_swap(b, pb, pa),
{
    if pa.in_bounds() && pb.in_bounds() {
        lemma_swapped_symmetric(b, pa, pb);
    }
}

/// The full game board.
///
/// Two parallel arrays: the entity handle and the gem kind in every cell.
/// Both are private so they cannot be updated independently; a cell holds an
/// entity exactly when it holds a gem kind (see [`Grid::wf`]).
pub struct Grid {
    entities: [[Option<Entity>; GRID_COLS]; GRID_ROWS],
    kinds: [[Option<GemType>; GRID_COLS]; GRID_ROWS],
}

impl Grid {
    /// Core run detection.
    ///
    /// Checks whether `pos`, treated as holding `kind`, belongs to a horizontal
    /// or vertical run of at least `MINIMUM_MATCH`. Neighbouring cells are read
    /// from `kinds`, except the cell that `overlay` names, which is read as the
    /// overlay's kind: callers can so consider a swap without mutating the board.
    fn pos_in_match_impl(
        kinds: &[[Option<GemType>; GRID_COLS]; GRID_ROWS],
        pos: GridPos,
        kind: GemType,
        overlay: Option<(GridPos, GemType)>,
    ) -> (r: bool)
        requires
            pos.in_bounds(),
            overlay matches Some((p, _)) ==> p.in_bounds() && p != pos,
        ensures
            r == in_match(overlaid(kinds_seq(*kinds), pos, kind, overlay), pos.row as int, pos.col as int),
    {
        let ghost h = overlaid(kinds_seq(*kinds), pos, kind, overlay);
        let ghost line = h[pos.row as int];
        let ghost colline = column_of(h, pos.col as int);
        assert(line.len() == GRID_COLS);
        assert(line[pos.col as int] == Some(kind));
        assert(colline[pos.row as int] == Some(kind));

        // Horizontal run through pos.col
        let mut run: usize = 1;
        let mut c = pos.col;
        while c > 0 && same_cell(cell_lookup(kinds, pos.row, c - 1, overlay), Some(kind))
            invariant
                pos.in_bounds(),
                overlay matches Some((p, _)) ==> p.in_bounds() && p != pos,
                h == overlaid(kinds_seq(*kinds), pos, kind, overlay),
                line == h[pos.row as int],
                line.len() == GRID_COLS,
                c <= pos.col,
                run == pos.col - c + 1,
                forall|j: int| c <= j <= pos.col ==> #[trigger] line[j] == Some(kind),
            decreases c,
        {
            c -= 1;
            run += 1;
        }
        let ghost c_left = c as int;
        c = pos.col;
        while c + 1 < GRID_COLS && same_cell(cell_lookup(kinds, pos.row, c + 1, overlay), Some(kind))
            invariant
                pos.in_bounds(),
                overlay matches Some((p, _)) ==> p.in_bounds() && p != pos,
                h == overlaid(kinds_seq(*kinds), pos, kind, overlay),
                line == h[pos.row as int],
                line.len() == GRID_COLS,
                pos.col <= c < GRID_COLS,
                0 <= c_left <= pos.col,
                run == c - c_left + 1,
                forall|j: int| c_left <= j <= c ==> #[trigger] line[j] == Some(kind),
            decreases GRID_COLS - c,
        {
            c += 1;
            run += 1;
        }
        proof {
            lemma_maximal_block(line, c_left, c + 1, pos.col as int);
        }
        if run >= MINIMUM_MATCH as usize {
            return true;
        }

        // Vertical run through pos.row
        run = 1;
        let mut r = pos.row;
        while r > 0 && same_cell(cell_lookup(kinds, r - 1, pos.col, overlay), Some(kind))
            invariant
                pos.in_bounds(),
                overlay matches Some((p, _)) ==> p.in_bounds() && p != pos,
                h == overlaid(kinds_seq(*kinds), pos, kind, overlay),
                colline == column_of(h, pos.col as int),
                colline.len() == GRID_ROWS,
                r <= pos.row,
                run == pos.row - r + 1,
                forall|j: int| r <= j <= pos.row ==> #[trigger] colline[j] == Some(kind),
            decreases r,
        {
            r -= 1;
            run += 1;
        }
        let ghost r_top = r as int;
        r = pos.row;
        while r + 1 < GRID_ROWS && same_cell(cell_lookup(kinds, r + 1, pos.col, overlay), Some(kind))
            invariant
                pos.in_bounds(),
                overlay matches Some((p, _)) ==> p.in_bounds() && p != pos,
                h == overlaid(kinds_seq(*kinds), pos, kind, overlay),
                colline == column_of(h, pos.col as int),
                colline.len() == GRID_ROWS,
                pos.row <= r < GRID_ROWS,
                0 <= r_top <= pos.row,
                run == r - r_top + 1,
                forall|j: int| r_top <= j <= r ==> #[trigger] colline[j] == Some(kind),
            decreases GRID_ROWS - r,
        {
            r += 1;
            run += 1;
        }
        proof {
            lemma_maximal_block(colline, r_top, r + 1, pos.row as int);
        }
        run >= MINIMUM_MATCH as usize
    }

    /// The gem kinds, row by row.
    pub closed spec fn kinds_view(&self) -> Seq<Seq<Option<GemType>>> {
        kinds_seq(self.kinds)
    }

    /// The entity handles, row by row.
    pub closed spec fn entities_view(&self) -> Seq<Seq<Option<Entity>>> {
        handles_view(self.entities)
    }

    /// Every cell holds an entity exactly when it holds a gem kind.
    #[verifier::type_invariant]
    pub closed spec fn wf(&self) -> bool {
        consistent(self.kinds, self.entities)
    }

    pub fn empty() -> (g: Self)
        ensures
            forall|p: GridPos| p.in_bounds() ==> at(g.kinds_view(), p) is None,
            forall|p: GridPos| p.in_bounds() ==> at(g.entities_view(), p) is None,
    {
        Self { entities: [[None;GRID_COLS];GRID_ROWS], kinds: [[None;GRID_COLS];GRID_ROWS] }
    }

    pub fn entity_at(&self, pos: GridPos) -> (e: Option<Entity>)
        requires
            pos.in_bounds(),
        ensures
            e == at(self.entities_view(), pos),
    {
        self.entities[pos.row][pos.col]
    }

    pub fn kind_at(&self, pos: GridPos) -> (k: Option<GemType>)
        requires
            pos.in_bounds(),
        ensures
            k == at(self.kinds_view(), pos),
    {
        self.kinds[pos.row][pos.col]
    }

    pub fn set_cell(&mut self, pos: GridPos, entity: Entity, kind: GemType)
        requires
            pos.in_bounds(),
        ensures
            final(self).kinds_view() == with_cell(old(self).kinds_view(), pos, Some(kind)),
            final(self).entities_view() == with_cell(old(self).entities_view(), pos, Some(entity)),
    {
        proof {
            use_type_invariant(&*self);
        }
        let mut entities = self.entities;
        let mut kinds = self.kinds;
        entities[pos.row][pos.col] = Some(entity);
        kinds[pos.row][pos.col] = Some(kind);
        *self = Grid { entities, kinds };
        assert(self.kinds_view() =~~= with_cell(old(self).kinds_view(), pos, Some(kind)));
        assert(self.entities_view() =~~= with_cell(old(self).entities_view(), pos, Some(entity)));
    }

    /// Both views are `GRID_ROWS` by `GRID_COLS`, and in a well-formed grid a
    /// cell holds an entity exactly when it holds a gem kind.
    pub proof fn lemma_views(&self)
        ensures
            shaped(self.kinds_view()),
            shaped(self.entities_view()),
            self.wf() ==> forall|p: GridPos|
                p.in_bounds() ==> (#[trigger] at(self.kinds_view(), p) is Some <==> at(
                    self.entities_view(),
                    p,
                ) is Some),
    {
        if self.wf() {
            assert forall|p: GridPos| p.in_bounds() implies (#[trigger] at(self.kinds_view(), p) is Some
                <==> at(self.entities_view(), p) is Some) by {
                assert(self.kinds[p.row as int][p.col as int] is Some <==> self.entities[p.row as int][p.col as int] is Some);
            }
        }
    }

    /// Returns `true` if swapping `pa` and `pb` created at least one match,
    /// that is, if either cell now lies in a match.
    pub fn swap_creates_match(&self, pa: GridPos, pb: GridPos) -> (r: bool)
        requires
            pa.in_bounds(),
            pb.in_bounds(),
        ensures
            r == (in_match(self.kinds_view(), pa.row as int, pa.col as int) || in_match(
                self.kinds_view(),
                pb.row as int,
                pb.col as int,
            )),
    {
        self.pos_in_match(pa) || self.pos_in_match(pb)
    }

    /// Returns `true` if `pos` is part of a horizontal or vertical run of 3+,
    /// reading gem kinds from the actual board state.
    fn pos_in_match(&self, pos: GridPos) -> (r: bool)
        requires
            pos.in_bounds(),
        ensures
            r == in_match(self.kinds_view(), pos.row as int, pos.col as int),
    {
        let ghost b = self.kinds_view();
        proof {
            self.lemma_views();
        }
        match self.kinds[pos.row][pos.col] {
            None => {
                proof {
                    assert(b[pos.row as int][pos.col as int] is None);
                    crate::runs::lemma_empty_not_in_run(b[pos.row as int], pos.col as int);
                    crate::runs::lemma_empty_not_in_run(column_of(b, pos.col as int), pos.row as int);
                }
                false
            },
            Some(kind) => {
                proof {
                    lemma_with_cell_same(b, pos);
                    assert(overlaid(b, pos, kind, None) == b);
                }
                Self::pos_in_match_impl(&self.kinds, pos, kind, None)
            },
        }
    }

    /// Returns `true` if there is at least one swap on the board that would
    /// create a match.
    ///
    /// Every adjacent pair (horizontal and vertical) is tested by checking
    /// whether either cell would form a run under its post-swap kind, without
    /// mutating the board.
    pub fn has_any_valid_move(&self) -> (r: bool)
        ensures
            r == has_valid_swap(self.kinds_view()),
    {
        let ghost b = self.kinds_view();
        proof {
            self.lemma_views();
        }
        let kinds = &self.kinds;
        let mut row: usize = 0;
        while row < GRID_ROWS
            invariant
                row <= GRID_ROWS,
                b == kinds_seq(*kinds),
                b == self.kinds_view(),
                shaped(b),
                forall|p: GridPos| p.in_bounds() && p.row < row ==> #[trigger] no_move_from(b, p),
            decreases GRID_ROWS - row,
        {
            let mut col: usize = 0;
            while col < GRID_COLS
                invariant
                    row < GRID_ROWS,
                    col <= GRID_COLS,
                    b == kinds_seq(*kinds),
                    b == self.kinds_view(),
                    shaped(b),
                    forall|p: GridPos|
                        p.in_bounds() && (p.row < row || (p.row == row && p.col < col))
                            ==> #[trigger] no_move_from(b, p),
                decreases GRID_COLS - col,
            {
                let pa = GridPos::new(col, row);
                if let Some(kind_a) = kinds[pa.row][pa.col] {
                    // Horizontal neighbour
                    if col + 1 < GRID_COLS {
                        let pb = GridPos::new(col + 1, row);
                        if let Some(kind_b) = kinds[pb.row][pb.col] {
                            // After swapping pa and pb: pa gets kind_b, pb gets kind_a.
                            let ghost s = swapped(b, pa, pb);
                            proof {
                                assert(overlaid(b, pa, kind_b, Some((pb, kind_a))) == s);
                                lemma_with_cell_commute(b, pb, pa, Some(kind_a), Some(kind_b));
                                assert(overlaid(b, pb, kind_a, Some((pa, kind_b))) == s);
                                assert(pb == right_of(pa));
                            }
                            if Self::pos_in_match_impl(kinds, pa, kind_b, Some((pb, kind_a)))
                                || Self::pos_in_match_impl(kinds, pb, kind_a, Some((pa, kind_b))) {
                                assert(valid_swap(b, pa, pb));
                                return true;
                            }
                        }
                    }
                    // Vertical neighbour
                    if row + 1 < GRID_ROWS {
                        let pb = GridPos::new(col, row + 1);
                        if let Some(kind_b) = kinds[pb.row][pb.col] {
                            let ghost s = swapped(b, pa, pb);
                            proof {
                                assert(overlaid(b, pa, kind_b, Some((pb, kind_a))) == s);
                                lemma_with_cell_commute(b, pb, pa, Some(kind_a), Some(kind_b));
                                assert(overlaid(b, pb, kind_a, Some((pa, kind_b))) == s);
                                assert(pb == below(pa));
                            }
                            if Self::pos_in_match_impl(kinds, pa, kind_b, Some((pb, kind_a)))
                                || Self::pos_in_match_impl(kinds, pb, kind_a, Some((pa, kind_b))) {
                                assert(valid_swap(b, pa, pb));
                                return true;
                            }
                        }
                    }
                }
                assert(no_move_from(b, pa));
                col = col + 1;
            }
            row = row + 1;
        }
        proof {
            assert forall|pa: GridPos, pb: GridPos| !#[trigger] valid_swap(b, pa, pb) by {
                if valid_swap(b, pa, pb) {
                    if pb == right_of(pa) || pb == below(pa) {
                        assert(no_move_from(b, pa));
                    } else {
                        lemma_valid_swap_symmetric(b, pa, pb);
                        assert(pa == right_of(pb) || pa == below(pb));
                        assert(no_move_from(b, pb));
                    }
                }
            }
        }
        false
    }

    /// Returns every grid position that is part of a match of 3+, row by
    /// row and each once. Only matches in cardinal directions count.
    pub fn find_all_matches(&self) -> (matched: Vec<GridPos>)
        ensures
            matched@ == matched_cells(self.kinds_view()),
    {
        let ghost b = self.kinds_view();
        proof {
            self.lemma_views();
        }
        let kinds = &self.kinds;
        let mut mask: [[bool; GRID_COLS]; GRID_ROWS] = [[false; GRID_COLS]; GRID_ROWS];

        let mut row: usize = 0;
        while row < GRID_ROWS
            invariant
                row <= GRID_ROWS,
                b == kinds_seq(*kinds),
                shaped(b),
                forall|r: int, c: int|
                    0 <= r < GRID_ROWS && 0 <= c < GRID_COLS ==> (#[trigger] mask[r][c] <==> (r < row
                        && in_run(b[r], c))),
            decreases GRID_ROWS - row,
        {
            let line = kinds[row];
            let runs = find_run_indices(line.as_slice());
            let mut k: usize = 0;
            while k < runs.len()
                invariant
                    row < GRID_ROWS,
                    k <= runs.len(),
                    b == kinds_seq(*kinds),
                    shaped(b),
                    line@ == b[row as int],
                    forall|q: int| 0 <= q < runs.len() ==> runs[q] < GRID_COLS,
                    forall|i: int|
                        0 <= i < GRID_COLS ==> (runs@.contains(i as usize) <==> in_run(line@, i)),
                    forall|r: int, c: int|
                        0 <= r < GRID_ROWS && 0 <= c < GRID_COLS && r != row ==> (
                        #[trigger] mask[r][c] <==> (r < row && in_run(b[r], c))),
                    forall|c: int| 0 <= c < GRID_COLS && #[trigger] mask[row as int][c] ==> in_run(b[row as int], c),
                    forall|q: int| 0 <= q < k ==> #[trigger] mask[row as int][runs[q] as int],
                decreases runs.len() - k,
            {
                let c = runs[k];
                mask[row][c] = true;
                k = k + 1;
            }
            proof {
                assert forall|c: int| 0 <= c < GRID_COLS && in_run(b[row as int], c) implies #[trigger] mask[row as int][c] by {
                    assert(runs@.contains(c as usize));
                    let q = choose|q: int| 0 <= q < runs@.len() && runs@[q] == c as usize;
                    assert(mask[row as int][runs[q] as int]);
                }
            }
            row = row + 1;
        }

        let mut col: usize = 0;
        while col < GRID_COLS
            invariant
                col <= GRID_COLS,
                b == kinds_seq(*kinds),
                shaped(b),
                forall|r: int, c: int|
                    0 <= r < GRID_ROWS && 0 <= c < GRID_COLS ==> (#[trigger] mask[r][c] <==> (in_run(b[r], c)
                        || (c < col && in_run(column_of(b, c), r)))),
            decreases GRID_COLS - col,
        {
            let mut column: Vec<Option<GemType>> = Vec::new();
            let mut r: usize = 0;
            while r < GRID_ROWS
                invariant
                    col < GRID_COLS,
                    r <= GRID_ROWS,
                    b == kinds_seq(*kinds),
                    column.len() == r,
                    forall|j: int| 0 <= j < r ==> #[trigger] column[j] == b[j][col as int],
                decreases GRID_ROWS - r,
            {
                column.push(kinds[r][col]);
                r = r + 1;
            }
            let ghost cl = column_of(b, col as int);
            assert(column@ =~= cl);
            let runs = find_run_indices(column.as_slice());
            let mut k: usize = 0;
            while k < runs.len()
                invariant
                    col < GRID_COLS,
                    k <= runs.len(),
                    b == kinds_seq(*kinds),
                    shaped(b),
                    cl == column_of(b, col as int),
                    forall|q: int| 0 <= q < runs.len() ==> runs[q] < GRID_ROWS,
                    forall|i: int|
                        0 <= i < GRID_ROWS ==> (runs@.contains(i as usize) <==> in_run(cl, i)),
                    forall|r: int, c: int|
                        0 <= r < GRID_ROWS && 0 <= c < GRID_COLS && c != col ==> (#[trigger] mask[r][c] <==> (
                        in_run(b[r], c) || (c < col && in_run(column_of(b, c), r)))),
                    forall|r: int| 0 <= r < GRID_ROWS && #[trigger] mask[r][col as int] ==> (in_run(b[r], col as int) || in_run(cl, r)),
                    forall|r: int| 0 <= r < GRID_ROWS && in_run(b[r], col as int) ==> #[trigger] mask[r][col as int],
                    forall|q: int| 0 <= q < k ==> #[trigger] mask[runs[q] as int][col as int],
                decreases runs.len() - k,
            {
                let r = runs[k];
                mask[r][col] = true;
                k = k + 1;
            }
            proof {
                assert forall|r: int| 0 <= r < GRID_ROWS && in_run(cl, r) implies #[trigger] mask[r][col as int] by {
                    assert(runs@.contains(r as usize));
                    let q = choose|q: int| 0 <= q < runs@.len() && runs@[q] == r as usize;
                    assert(mask[runs[q] as int][col as int]);
                }
            }
            col = col + 1;
        }

        let ghost all = all_positions();
        let ghost pred = matched_on(b);
        let mut matched: Vec<GridPos> = Vec::new();
        let mut i: usize = 0;
        while i < GRID_ROWS * GRID_COLS
            invariant
                i <= GRID_ROWS * GRID_COLS,
                all == all_positions(),
                pred == matched_on(b),
                forall|r: int, c: int|
                    0 <= r < GRID_ROWS && 0 <= c < GRID_COLS ==> (#[trigger] mask[r][c] <==> in_match(b, r, c)),
                matched@ == all.take(i as int).filter(pred),
            decreases GRID_ROWS * GRID_COLS - i,
        {
            let r = i / GRID_COLS;
            let c = i % GRID_COLS;
            proof {
                reveal(Seq::filter);
                assert(all.take(i + 1).drop_last() =~= all.take(i as int));
                assert(all.take(i + 1).last() == GridPos { col: c, row: r });
            }
            if mask[r][c] {
                matched.push(GridPos::new(c, r));
            }
            i = i + 1;
        }
        assert(all.take((GRID_ROWS * GRID_COLS) as int) =~= all);
        matched
    }

    /// Compacts surviving gems toward the bottom of each column, keeping
    /// their order, and returns the vacated top cells, column by column and
    /// top to bottom, each with a new uniformly random gem kind and the number of cells
    /// above its target from which it starts to fall: the `k` vacated cells of
    /// a column start `k` to `1` cells up, so that they pour in as a stream.
    pub fn apply_gravity(&mut self) -> (refills: Vec<Refill>)
        ensures
            gravity_applied(
                old(self).kinds_view(),
                old(self).entities_view(),
                final(self).kinds_view(),
                final(self).entities_view(),
                refills@,
            ),
            exists|draws: [[usize; GRID_COLS]; GRID_ROWS]|
                crate::gems::draws_below(draws, 5) && #[trigger] refills_drawn(refills@, draws),
    {
        let draws = crate::gems::random_draws(5);
        self.apply_gravity_with_draws(&draws)
    }

    /// Gravity as [`Grid::apply_gravity`] does it, with the kind of each new
    /// gem picked by `draws`: the entry of [`GemType::ALL`] at the draw for
    /// its cell, modulo five.
    pub fn apply_gravity_with_draws(&mut self, draws: &[[usize; GRID_COLS]; GRID_ROWS]) -> (refills: Vec<Refill>)
        ensures
            gravity_applied(
                old(self).kinds_view(),
                old(self).entities_view(),
                final(self).kinds_view(),
                final(self).entities_view(),
                refills@,
            ),
            refills_drawn(refills@, *draws),
    {
        proof {
            use_type_invariant(&*self);
        }
        let mut kinds = self.kinds;
        let mut entities = self.entities;
        let ghost k0 = self.kinds;
        let ghost e0 = self.entities;
        let ghost kv0 = self.kinds_view();
        let ghost ev0 = self.entities_view();
        let mut refills: Vec<Refill> = Vec::new();
        let mut col: usize = 0;
        while col < GRID_COLS
            invariant
                col <= GRID_COLS,
                consistent(kinds, entities),
                kv0 == kinds_seq(k0),
                ev0 == Seq::new(GRID_ROWS as nat, |r: int| e0[r]@),
                forall|r: int, c: int|
                    0 <= r < GRID_ROWS && col <= c < GRID_COLS ==> kinds[r][c] == k0[r][c]
                        && entities[r][c] == e0[r][c],
                forall|r: int, c: int|
                    0 <= r < GRID_ROWS && 0 <= c < col ==> kinds[r][c] == settled(
                        column_of(kv0, c),
                    )[r] && entities[r][c] == settled(column_of(ev0, c))[r],
                forall|i: int|
                    0 <= i < refills.len() ==> {
                        let p = (#[trigger] refills[i]).pos;
                        &&& p.in_bounds()
                        &&& p.col < col
                        &&& p.row < gap(column_of(kv0, p.col as int))
                        &&& refills[i].drop_steps == gap(column_of(kv0, p.col as int)) - p.row
                    },
                forall|i: int, j: int|
                    0 <= i < j < refills.len() ==> col_major(refills[i].pos) < col_major(refills[j].pos),
                refills_drawn(refills@, *draws),
                forall|p: GridPos|
                    p.in_bounds() && p.col < col && p.row < gap(column_of(kv0, p.col as int)) ==> exists|i: int|
                        0 <= i < refills.len() && #[trigger] refills[i].pos == p,
            decreases GRID_COLS - col,
        {
            let ghost ck = column_of(kv0, col as int);
            let ghost ce = column_of(ev0, col as int);
            // Collect surviving gems top to bottom.
            let mut surv_k: Vec<Option<GemType>> = Vec::new();
            let mut surv_e: Vec<Option<Entity>> = Vec::new();
            let mut r: usize = 0;
            while r < GRID_ROWS
                invariant
                    col < GRID_COLS,
                    r <= GRID_ROWS,
                    consistent(kinds, entities),
                    ck == column_of(kv0, col as int),
                    ce == column_of(ev0, col as int),
                    kv0 == kinds_seq(k0),
                    ev0 == Seq::new(GRID_ROWS as nat, |r: int| e0[r]@),
                    forall|r: int| 0 <= r < GRID_ROWS ==> kinds[r][col as int] == k0[r][col as int]
                        && entities[r][col as int] == e0[r][col as int],
                    surv_k@ == ck.take(r as int).filter(is_gem::<GemType>()),
                    surv_e@ == ce.take(r as int).filter(is_gem::<Entity>()),
                decreases GRID_ROWS - r,
            {
                proof {
                    reveal(Seq::filter);
                    assert(ck.take(r + 1).drop_last() =~= ck.take(r as int));
                    assert(ce.take(r + 1).drop_last() =~= ce.take(r as int));
                    assert(ck.take(r + 1).last() == kinds[r as int][col as int]);
                    assert(ce.take(r + 1).last() == entities[r as int][col as int]);
                    assert(kinds[r as int][col as int] is Some <==> entities[r as int][col as int] is Some);
                }
                if kinds[r][col].is_some() {
                    surv_k.push(kinds[r][col]);
                    surv_e.push(entities[r][col]);
                }
                r = r + 1;
            }
            proof {
                assert(ck.take(GRID_ROWS as int) =~= ck);
                assert(ce.take(GRID_ROWS as int) =~= ce);
                ck.lemma_filter_len(is_gem::<GemType>());
                ce.lemma_filter_len(is_gem::<Entity>());
            }
            assert(surv_k.len() == surv_e.len()) by {
                lemma_filter_same_len(ck, ce);
            }
            let empty_rows = GRID_ROWS - surv_k.len();
            let ghost sk = settled(ck);
            let ghost se = settled(ce);
            assert(gap(ck) == empty_rows);

            // Repack the column: empty cells on top, survivors below.
            let ghost kb = kinds;
            let ghost eb = entities;
            r = 0;
            while r < GRID_ROWS
                invariant
                    col < GRID_COLS,
                    r <= GRID_ROWS,
                    empty_rows == GRID_ROWS - surv_k.len(),
                    surv_k.len() == surv_e.len(),
                    sk == settled(ck),
                    se == settled(ce),
                    surv_k@ == ck.filter(is_gem::<GemType>()),
                    surv_e@ == ce.filter(is_gem::<Entity>()),
                    ck.len() == GRID_ROWS,
                    ce.len() == GRID_ROWS,
                    forall|rr: int, c: int|
                        0 <= rr < GRID_ROWS && 0 <= c < GRID_COLS && c != col ==> kinds[rr][c]
                            == kb[rr][c] && entities[rr][c] == eb[rr][c],
                    forall|rr: int| 0 <= rr < r ==> kinds[rr][col as int] == sk[rr] && entities[rr][col as int] == se[rr],
                    forall|rr: int, c: int|
                        0 <= rr < GRID_ROWS && 0 <= c < GRID_COLS ==> (#[trigger] kb[rr][c] is Some
                            <==> eb[rr][c] is Some),
                decreases GRID_ROWS - r,
            {
                if r < empty_rows {
                    kinds[r][col] = None;
                    entities[r][col] = None;
                } else {
                    kinds[r][col] = surv_k[r - empty_rows];
                    entities[r][col] = surv_e[r - empty_rows];
                }
                r = r + 1;
            }
            proof {
                assert forall|rr: int, c: int|
                    0 <= rr < GRID_ROWS && 0 <= c < GRID_COLS implies (#[trigger] kinds[rr][c] is Some
                        <==> entities[rr][c] is Some) by {
                    if c == col {
                        assert(kinds[rr][c] == sk[rr]);
                        assert(entities[rr][c] == se[rr]);
                        assert(ck.filter(is_gem::<GemType>()).len() == surv_k.len());
                        assert(ce.filter(is_gem::<Entity>()).len() == surv_e.len());
                        if rr >= empty_rows {
                            ck.lemma_filter_pred(is_gem::<GemType>(), rr - empty_rows);
                            ce.lemma_filter_pred(is_gem::<Entity>(), rr - empty_rows);
                            assert(sk[rr] == ck.filter(is_gem::<GemType>())[rr - empty_rows]);
                            assert(se[rr] == ce.filter(is_gem::<Entity>())[rr - empty_rows]);
                        } else {
                            assert(sk[rr] is None);
                            assert(se[rr] is None);
                        }
                    } else {
                        assert(kb[rr][c] is Some <==> eb[rr][c] is Some);
                    }
                }
            }

            // Refill the vacated top cells.
            let ghost before = refills@;
            assert(forall|i: int| 0 <= i < before.len() ==> before[i] == refills[i]);
            let mut row: usize = 0;
            while row < empty_rows
                invariant
                    col < GRID_COLS,
                    row <= empty_rows,
                    empty_rows == gap(ck),
                    empty_rows <= GRID_ROWS,
                    ck == column_of(kv0, col as int),
                    refills.len() == before.len() + row,
                    forall|i: int| 0 <= i < before.len() ==> refills[i] == before[i],
                    forall|i: int|
                        0 <= i < before.len() ==> {
                            let p = (#[trigger] before[i]).pos;
                            &&& p.in_bounds()
                            &&& p.col < col
                            &&& p.row < gap(column_of(kv0, p.col as int))
                            &&& before[i].drop_steps == gap(column_of(kv0, p.col as int)) - p.row
                        },
                    forall|i: int, j: int|
                        0 <= i < j < before.len() ==> col_major(before[i].pos) < col_major(before[j].pos),
                    forall|i: int|
                        before.len() <= i < refills.len() ==> (#[trigger] refills[i]).pos == (GridPos {
                            col: col,
                            row: (i - before.len()) as usize,
                        }) && refills[i].drop_steps == empty_rows - (i - before.len()),
                    refills_drawn(refills@, *draws),
                decreases empty_rows - row,
            {
                // New gems may immediately form matches: that is what drives
                // cascade chains.
                let kind = GemType::from_index(draws[row][col] % 5);
                let ghost prev = refills@;
                refills.push(Refill { pos: GridPos::new(col, row), kind, drop_steps: empty_rows - row });
                proof {
                    assert forall|i: int| 0 <= i < refills.len() implies (#[trigger] refills[i]).kind == drawn_kind(*draws, refills[i].pos) by {
                        if i < prev.len() {
                            assert(refills[i] == prev[i]);
                        }
                    }
                }
                row = row + 1;
            }
            proof {
                assert forall|i: int| 0 <= i < refills.len() implies {
                        let p = (#[trigger] refills[i]).pos;
                        &&& p.in_bounds()
                        &&& p.col < col + 1
                        &&& p.row < gap(column_of(kv0, p.col as int))
                        &&& refills[i].drop_steps == gap(column_of(kv0, p.col as int)) - p.row
                    } by {
                    if i < before.len() {
                        assert(before[i] == refills[i]);
                    } else {
                        assert(refills[i].pos.col == col);
                        assert(column_of(kv0, refills[i].pos.col as int) == ck);
                    }
                }
                assert forall|i: int, j: int|
                    0 <= i < j < refills.len() implies col_major(refills[i].pos) < col_major(refills[j].pos) by {
                    if j < before.len() {
                        assert(before[i] == refills[i]);
                        assert(before[j] == refills[j]);
                    } else if i < before.len() {
                        assert(before[i] == refills[i]);
                        assert(before[i].pos.col < col);
                        assert(before[i].pos.row < GRID_ROWS);
                    }
                }
                assert forall|p: GridPos|
                    p.in_bounds() && p.col < col + 1 && p.row < gap(column_of(kv0, p.col as int)) implies exists|i: int|
                        0 <= i < refills.len() && #[trigger] refills[i].pos == p by {
                    if p.col == col {
                        let i = before.len() + p.row;
                        assert(refills[i].pos == p);
                    } else {
                        let i = choose|i: int| 0 <= i < before.len() && #[trigger] before[i].pos == p;
                        assert(refills[i].pos == p);
                    }
                }
            }
            col = col + 1;
        }
        proof {
            assert forall|c: int| 0 <= c < GRID_COLS implies #[trigger] column_of(kinds_seq(kinds), c) == settled(
                column_of(kv0, c),
            ) by {
                assert(column_of(kinds_seq(kinds), c) =~= settled(column_of(kv0, c)));
            }
            assert forall|c: int| 0 <= c < GRID_COLS implies #[trigger] column_of(handles_view(entities), c) == settled(
                column_of(ev0, c),
            ) by {
                assert(column_of(handles_view(entities), c) =~= settled(column_of(ev0, c)));
            }
            assert forall|p: GridPos| p.in_bounds() && #[trigger] at(kinds_seq(kinds), p) is None implies exists|i: int|
                    0 <= i < refills.len() && refills[i].pos == p by {
                let cl = column_of(kv0, p.col as int);
                assert(kinds[p.row as int][p.col as int] == settled(cl)[p.row as int]);
                if p.row >= gap(cl) {
                    cl.lemma_filter_pred(is_gem::<GemType>(), p.row - gap(cl));
                }
                assert(p.row < gap(cl));
                let i = choose|i: int| 0 <= i < refills.len() && #[trigger] refills[i].pos == p;
            }
            assert forall|i: int| 0 <= i < refills.len() implies at(kinds_seq(kinds), (#[trigger] refills[i]).pos) is None by {
                let p = refills[i].pos;
                let cl = column_of(kv0, p.col as int);
                assert(kinds[p.row as int][p.col as int] == settled(cl)[p.row as int]);
            }
        }
        *self = Grid { entities, kinds };
        refills
    }

    /// A full grid holding `layout[row][col]` and `entities[row][col]` in
    /// every cell.
    pub fn from_layout(
        layout: &[[GemType; GRID_COLS]; GRID_ROWS],
        entities: &[[Entity; GRID_COLS]; GRID_ROWS],
    ) -> (g: Self)
        ensures
            g.kinds_view() == crate::gems::layout_seq(*layout),
            g.entities_view() == handles_seq(*entities),
    {
        let mut grid_entities: [[Option<Entity>; GRID_COLS]; GRID_ROWS] = [[None;GRID_COLS];GRID_ROWS];
        let mut grid_kinds: [[Option<GemType>; GRID_COLS]; GRID_ROWS] = [[None;GRID_COLS];GRID_ROWS];
        let mut row: usize = 0;
        while row < GRID_ROWS
            invariant
                row <= GRID_ROWS,
                forall|r: int, c: int|
                    0 <= r < GRID_ROWS && 0 <= c < GRID_COLS ==> (#[trigger] grid_kinds[r][c] == (if r < row {
                        Some(layout[r][c])
                    } else {
                        None::<GemType>
                    })),
                forall|r: int, c: int|
                    0 <= r < GRID_ROWS && 0 <= c < GRID_COLS ==> (#[trigger] grid_entities[r][c] == (if r < row {
                        Some(entities[r][c])
                    } else {
                        None::<Entity>
                    })),
            decreases GRID_ROWS - row,
        {
            let mut col: usize = 0;
            while col < GRID_COLS
                invariant
                    row < GRID_ROWS,
                    col <= GRID_COLS,
                    forall|r: int, c: int|
                        0 <= r < GRID_ROWS && 0 <= c < GRID_COLS ==> (#[trigger] grid_kinds[r][c] == (if r < row
                            || (r == row && c < col) {
                            Some(layout[r][c])
                        } else {
                            None::<GemType>
                        })),
                    forall|r: int, c: int|
                        0 <= r < GRID_ROWS && 0 <= c < GRID_COLS ==> (#[trigger] grid_entities[r][c] == (if r < row
                            || (r == row && c < col) {
                            Some(entities[r][c])
                        } else {
                            None::<Entity>
                        })),
                decreases GRID_COLS - col,
            {
                grid_entities[row][col] = Some(entities[row][col]);
                grid_kinds[row][col] = Some(layout[row][col]);
                col = col + 1;
            }
            row = row + 1;
        }
        assert(kinds_seq(grid_kinds) =~~= crate::gems::layout_seq(*layout));
        assert(handles_view(grid_entities) =~~= handles_seq(*entities));
        assert forall|r: int, c: int|
            0 <= r < GRID_ROWS && 0 <= c < GRID_COLS implies (#[trigger] grid_kinds[r][c] is Some
                <==> grid_entities[r][c] is Some) by {
            assert(grid_entities[r][c] is Some);
        }
        Grid { entities: grid_entities, kinds: grid_kinds }
    }

    /// Places each refill's kind, with the entity spawned for it, in the
    /// refill's cell, in order.
    pub fn refill(&mut self, refills: &Vec<Refill>, entities: &Vec<Entity>)
        requires
            refills.len() == entities.len(),
            forall|i: int| 0 <= i < refills.len() ==> (#[trigger] refills[i]).pos.in_bounds(),
        ensures
            final(self).kinds_view() == placed(
                old(self).kinds_view(),
                refill_positions(refills@),
                refill_kinds(refills@),
                refills.len() as nat,
            ),
            final(self).entities_view() == placed(
                old(self).entities_view(),
                refill_positions(refills@),
                occupied_by(entities@),
                refills.len() as nat,
            ),
    {
        let ghost k0 = self.kinds_view();
        let ghost e0 = self.entities_view();
        let ghost ps = refill_positions(refills@);
        let mut i: usize = 0;
        while i < refills.len()
            invariant
                i <= refills.len(),
                refills.len() == entities.len(),
                forall|j: int| 0 <= j < refills.len() ==> (#[trigger] refills[j]).pos.in_bounds(),
                ps == refill_positions(refills@),
                self.kinds_view() == placed(k0, ps, refill_kinds(refills@), i as nat),
                self.entities_view() == placed(e0, ps, occupied_by(entities@), i as nat),
            decreases refills.len() - i,
        {
            let r = refills[i];
            self.set_cell(r.pos, entities[i], r.kind);
            i = i + 1;
        }
    }

    /// Clears both arrays at `pos` and returns the entity that was there.
    pub fn clear_cell(&mut self, pos: GridPos) -> (e: Option<Entity>)
        requires
            pos.in_bounds(),
        ensures
            e == at(old(self).entities_view(), pos),
            final(self).kinds_view() == with_cell(old(self).kinds_view(), pos, None),
            final(self).entities_view() == with_cell(old(self).entities_view(), pos, None),
    {
        proof {
            use_type_invariant(&*self);
        }
        let mut entities = self.entities;
        let mut kinds = self.kinds;
        kinds[pos.row][pos.col] = None;
        let e = entities[pos.row][pos.col];
        entities[pos.row][pos.col] = None;
        *self = Grid { entities, kinds };
        assert(self.kinds_view() =~~= with_cell(old(self).kinds_view(), pos, None));
        assert(self.entities_view() =~~= with_cell(old(self).entities_view(), pos, None));
        e
    }

    /// Swaps the contents of two cells in both arrays.
    pub fn swap_cells(&mut self, a: GridPos, b: GridPos)
        requires
            a.in_bounds(),
            b.in_bounds(),
        ensures
            final(self).kinds_view() == swapped(old(self).kinds_view(), a, b),
            final(self).entities_view() == swapped(old(self).entities_view(), a, b),
    {
        proof {
            use_type_invariant(&*self);
        }
        let mut entities = self.entities;
        let mut kinds = self.kinds;
        let (ea, eb) = (entities[a.row][a.col], entities[b.row][b.col]);
        entities[a.row][a.col] = eb;
        entities[b.row][b.col] = ea;

        let (ka, kb) = (kinds[a.row][a.col], kinds[b.row][b.col]);
        kinds[a.row][a.col] = kb;
        kinds[b.row][b.col] = ka;
        *self = Grid { entities, kinds };
        assert(self.kinds_view() =~~= swapped(old(self).kinds_view(), a, b));
        assert(self.entities_view() =~~= swapped(old(self).entities_view(), a, b));
    }

    /// Every occupied cell with its entity, in row-major order.
    pub fn occupied_cells(&self) -> (cells: Vec<(GridPos, Entity)>)
        ensures
            forall|i: int|
                0 <= i < cells.len() ==> (#[trigger] cells[i]).0.in_bounds() && at(
                    self.entities_view(),
                    cells[i].0,
                ) == Some(cells[i].1),
            forall|i: int, j: int|
                0 <= i < j < cells.len() ==> row_major(cells[i].0) < row_major(cells[j].0),
            forall|p: GridPos|
                p.in_bounds() && #[trigger] at(self.entities_view(), p) is Some ==> exists|i: int|
                    0 <= i < cells.len() && cells[i].0 == p,
    {
        let mut cells: Vec<(GridPos, Entity)> = Vec::new();
        let mut row: usize = 0;
        while row < GRID_ROWS
            invariant
                row <= GRID_ROWS,
                forall|i: int|
                    0 <= i < cells.len() ==> (#[trigger] cells[i]).0.in_bounds() && at(
                        self.entities_view(),
                        cells[i].0,
                    ) == Some(cells[i].1) && cells[i].0.row < row,
                forall|i: int, j: int|
                    0 <= i < j < cells.len() ==> row_major(cells[i].0) < row_major(cells[j].0),
                forall|p: GridPos|
                    p.in_bounds() && p.row < row && #[trigger] at(self.entities_view(), p) is Some
                        ==> exists|i: int| 0 <= i < cells.len() && cells[i].0 == p,
            decreases GRID_ROWS - row,
        {
            let mut col: usize = 0;
            while col < GRID_COLS
                invariant
                    row < GRID_ROWS,
                    col <= GRID_COLS,
                    forall|i: int|
                        0 <= i < cells.len() ==> (#[trigger] cells[i]).0.in_bounds() && at(
                            self.entities_view(),
                            cells[i].0,
                        ) == Some(cells[i].1) && row_major(cells[i].0) < row * GRID_COLS + col,
                    forall|i: int, j: int|
                        0 <= i < j < cells.len() ==> row_major(cells[i].0) < row_major(cells[j].0),
                    forall|p: GridPos|
                        p.in_bounds() && (p.row < row || (p.row == row && p.col < col))
                            && #[trigger] at(self.entities_view(), p) is Some ==> exists|i: int|
                            0 <= i < cells.len() && cells[i].0 == p,
                decreases GRID_COLS - col,
            {
                if let Some(entity) = self.entities[row][col] {
                    let ghost before = cells@;
                    cells.push((GridPos::new(col, row), entity));
                    proof {
                        assert forall|p: GridPos|
                            p.in_bounds() && (p.row < row || (p.row == row && p.col < col + 1))
                                && #[trigger] at(self.entities_view(), p) is Some implies exists|i: int|
                                0 <= i < cells.len() && cells[i].0 == p by {
                            if p.row == row && p.col == col {
                                assert(cells[cells.len() - 1].0 == p);
                            } else {
                                let i = choose|i: int| 0 <= i < before.len() && before[i].0 == p;
                                assert(cells[i].0 == p);
                            }
                        }
                    }
                }
                col = col + 1;
            }
            row = row + 1;
        }
        cells
    }
}

/// A position's index when cells are read row by row.
pub open spec fn row_major(p: GridPos) -> int {
    p.row * GRID_COLS + p.col
}

} // verus!
