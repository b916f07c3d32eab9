//! Gem kinds and random gem generation.

use rand::RngExt;
use vstd::prelude::*;

use crate::board::{
    GRID_COLS, GRID_ROWS, GridPos, kinds_seq, in_match, pos_of, with_cell, lemma_pos_of,
    lemma_row_major_injective,
};
use crate::runs::is_run;

verus! {

/// The variant of a gem on the board.
#[derive(Debug, Clone, Copy, PartialEq, Eq, Hash, Structural)]
pub enum GemType {
    Red,
    Blue,
    Green,
    Yellow,
    Purple,
}

/// Placing `g` at `(col, row)` would complete a run of three with the two
/// cells to its left or the two cells above it.
pub open spec fn completes_run(
    kinds: Seq<Seq<Option<GemType>>>,
    col: int,
    row: int,
    g: GemType,
) -> bool {
    ||| (col >= 2 && kinds[row][col - 1] == Some(g) && kinds[row][col - 2] == Some(g))
    ||| (row >= 2 && kinds[row - 1][col] == Some(g) && kinds[row - 2][col] == Some(g))
}

/// Draws `rand::rng().random_range(0..bound)` from the thread-local random
/// number generator.
///
/// The contract claims only what holds of every draw: the index lies in
/// `0..bound` (rand panics on an empty range, hence `bound > 0`). Which index
/// comes back is left unsaid: it rests on chance. `rand::rng` can also panic
/// if the operating system's entropy source fails on first use.
#[verifier::external_body]
fn random_index(bound: usize) -> (i: usize)
    requires
        bound > 0,
    ensures
        i < bound,
{
    rand::rng().random_range(0..bound)
}

impl GemType {
    pub const ALL: [GemType; 5] = [
        GemType::Red,
        GemType::Blue,
        GemType::Green,
        GemType::Yellow,
        GemType::Purple,
    ];

    /// A uniformly random gem kind: the kind at a random index of
    /// [`GemType::ALL`]. Which kind comes back rests on chance; every kind is
    /// a possible outcome.
    pub fn random() -> (g: GemType)
        ensures
            Self::ALL@.contains(g),
    {
        Self::from_index(random_index(5))
    }

    /// The gem kind at `index` in [`GemType::ALL`].
    pub fn from_index(index: usize) -> (g: GemType)
        requires
            index < 5,
        ensures
            g == Self::ALL@[index as int],
    {
        let all = Self::ALL;
        assert(Self::ALL@[index as int] == all@[index as int]);
        all[index]
    }

    /// The kinds allowed at `(col, row)` of `kinds`, in the order of
    /// [`GemType::ALL`].
    pub fn allowed_kinds_at(
        col: usize,
        row: usize,
        kinds: &[[Option<GemType>; GRID_COLS]; GRID_ROWS],
    ) -> (allowed: Vec<GemType>)
        requires
            col < GRID_COLS,
            row < GRID_ROWS,
        ensures
            allowed@ == allowed_kinds(kinds_seq(*kinds), col as int, row as int),
    {
        let ghost b = kinds_seq(*kinds);
        let ghost fits = fits_at(b, col as int, row as int);
        let all = Self::ALL;
        let mut allowed: Vec<GemType> = Vec::new();
        let mut i: usize = 0;
        while i < 5
            invariant
                i <= 5,
                all == Self::ALL,
                b == kinds_seq(*kinds),
                fits == fits_at(b, col as int, row as int),
                col < GRID_COLS,
                row < GRID_ROWS,
                allowed@ == all@.take(i as int).filter(fits),
            decreases 5 - i,
        {
            let candidate = all[i];
            proof {
                reveal(Seq::filter);
                assert(all@.take(i + 1).drop_last() =~= all@.take(i as int));
                assert(all@.take(i + 1).last() == candidate);
            }
            // Would placing `candidate` here complete a horizontal run of 3?
            let horizontal = col >= 2 && same_kind(kinds[row][col - 1], candidate)
                && same_kind(kinds[row][col - 2], candidate);
            // Same vertically: only look upward.
            let vertical = row >= 2 && same_kind(kinds[row - 1][col], candidate)
                && same_kind(kinds[row - 2][col], candidate);
            if !horizontal && !vertical {
                allowed.push(candidate);
            }
            i = i + 1;
        }
        assert(all@.take(5) =~= all@);
        allowed
    }

    /// The `k`-th of the kinds allowed at `(col, row)`: what
    /// [`GemType::random_no_match`] returns when the draw is `k`.
    pub fn pick_allowed(
        col: usize,
        row: usize,
        kinds: &[[Option<GemType>; GRID_COLS]; GRID_ROWS],
        k: usize,
    ) -> (g: GemType)
        requires
            col < GRID_COLS,
            row < GRID_ROWS,
            k < allowed_kinds(kinds_seq(*kinds), col as int, row as int).len(),
        ensures
            g == allowed_kinds(kinds_seq(*kinds), col as int, row as int)[k as int],
    {
        let allowed = Self::allowed_kinds_at(col, row, kinds);
        allowed[k]
    }

    /// Returns a random gem kind that would **not** immediately create a run
    /// of three when placed at `(col, row)`, looking only left and up (the
    /// board is filled left to right, top to bottom). Used during board
    /// initialisation.
    ///
    /// Every allowed kind is equally likely: a uniform draw among the allowed
    /// kinds picks one with [`GemType::pick_allowed`], which is what drawing
    /// from all kinds until one fits yields. At most two kinds are ever ruled
    /// out, so one always remains.
    pub fn random_no_match(
        col: usize,
        row: usize,
        kinds: &[[Option<GemType>; GRID_COLS]; GRID_ROWS],
    ) -> (g: GemType)
        requires
            col < GRID_COLS,
            row < GRID_ROWS,
        ensures
            !completes_run(kinds_seq(*kinds), col as int, row as int, g),
            allowed_kinds(kinds_seq(*kinds), col as int, row as int).contains(g),
    {
        let count = Self::allowed_kinds_at(col, row, kinds).len();
        proof {
            lemma_allowed_kinds(kinds_seq(*kinds), col as int, row as int);
        }
        let k = random_index(count);
        let g = Self::pick_allowed(col, row, kinds, k);
        assert(allowed_kinds(kinds_seq(*kinds), col as int, row as int)[k as int] == g);
        g
    }
}

/// The predicate "fits at `(col, row)` of `kinds`": does not complete a run.
pub open spec fn fits_at(kinds: Seq<Seq<Option<GemType>>>, col: int, row: int) -> spec_fn(GemType) -> bool {
    |g: GemType| !completes_run(kinds, col, row, g)
}

/// The kinds that fit at `(col, row)` of `kinds`, in the order of
/// [`GemType::ALL`].
pub open spec fn allowed_kinds(kinds: Seq<Seq<Option<GemType>>>, col: int, row: int) -> Seq<GemType> {
    GemType::ALL@.filter(fits_at(kinds, col, row))
}

/// Some kind always fits, at most all five do, and every allowed kind fits.
pub proof fn lemma_allowed_kinds(kinds: Seq<Seq<Option<GemType>>>, col: int, row: int)
    ensures
        0 < allowed_kinds(kinds, col, row).len() <= 5,
        forall|i: int|
            0 <= i < allowed_kinds(kinds, col, row).len() ==> !completes_run(
                kinds,
                col,
                row,
                #[trigger] allowed_kinds(kinds, col, row)[i],
            ),
{
    let all = GemType::ALL@;
    let fits = fits_at(kinds, col, row);
    let a = allowed_kinds(kinds, col, row);
    all.lemma_filter_len(fits);
    // Red, Blue and Green are distinct, so the two neighbours seen on the
    // left and above cannot rule out all three.
    assert(fits(all[0]) || fits(all[1]) || fits(all[2]));
    if fits(all[0]) {
        all.lemma_filter_contains(fits, 0);
    } else if fits(all[1]) {
        all.lemma_filter_contains(fits, 1);
    } else {
        all.lemma_filter_contains(fits, 2);
    }
    assert forall|i: int| 0 <= i < a.len() implies !completes_run(kinds, col, row, #[trigger] a[i]) by {
        all.lemma_filter_pred(fits, i);
    }
}

/// `cell == Some(g)`.
fn same_kind(cell: Option<GemType>, g: GemType) -> (r: bool)
    ensures
        r == (cell == Some(g)),
{
    match cell {
        Some(x) => x == g,
        None => false,
    }
}

/// The kinds of a full layout as a board.
pub open spec fn layout_seq(layout: [[GemType; GRID_COLS]; GRID_ROWS]) -> Seq<Seq<Option<GemType>>> {
    Seq::new(GRID_ROWS as nat, |r: int| Seq::new(GRID_COLS as nat, |c: int| Some(layout[r][c])))
}

/// The empty board.
pub open spec fn empty_board() -> Seq<Seq<Option<GemType>>> {
    Seq::new(GRID_ROWS as nat, |r: int| Seq::new(GRID_COLS as nat, |c: int| None::<GemType>))
}

/// The board after the first `n` cells, read row by row, are filled from
/// `draws`: each cell takes the allowed kind whose place among the allowed
/// kinds is its draw modulo their number.
pub open spec fn board_after(draws: [[usize; GRID_COLS]; GRID_ROWS], n: nat) -> Seq<Seq<Option<GemType>>>
    decreases n,
{
    if n == 0 {
        empty_board()
    } else {
        let prev = board_after(draws, (n - 1) as nat);
        let p = pos_of(n - 1);
        let allowed = allowed_kinds(prev, p.col as int, p.row as int);
        with_cell(prev, p, Some(allowed[draws[p.row as int][p.col as int] as int % allowed.len() as int]))
    }
}

/// The layout that `draws` determine, filled left to right and top to
/// bottom: each cell takes the allowed kind ([`GemType::pick_allowed`]) at
/// its draw modulo the number of allowed kinds, so no cell starts in a match.
pub fn layout_from_draws(draws: &[[usize; GRID_COLS]; GRID_ROWS]) -> (layout: [[GemType; GRID_COLS]; GRID_ROWS])
    ensures
        layout_seq(layout) == board_after(*draws, (GRID_ROWS * GRID_COLS) as nat),
        forall|r: int, c: int|
            0 <= r < GRID_ROWS && 0 <= c < GRID_COLS ==> !in_match(layout_seq(layout), r, c),
{
    let mut kind_buf: [[Option<GemType>; GRID_COLS]; GRID_ROWS] = [[None; GRID_COLS]; GRID_ROWS];
    let mut layout: [[GemType; GRID_COLS]; GRID_ROWS] = [[GemType::Red; GRID_COLS]; GRID_ROWS];
    assert(kinds_seq(kind_buf) =~~= empty_board());
    let mut row: usize = 0;
    while row < GRID_ROWS
        invariant
            row <= GRID_ROWS,
            forall|r: int, c: int|
                0 <= r < GRID_ROWS && 0 <= c < GRID_COLS ==> (#[trigger] kind_buf[r][c] == if r < row {
                    Some(layout[r][c])
                } else {
                    None::<GemType>
                }),
            forall|r: int, c: int|
                0 <= r < row && 0 <= c < GRID_COLS ==> !completes_run(
                    kinds_seq(kind_buf),
                    c,
                    r,
                    #[trigger] layout[r][c],
                ),
            kinds_seq(kind_buf) == board_after(*draws, (row * GRID_COLS) as nat),
        decreases GRID_ROWS - row,
    {
        let mut col: usize = 0;
        while col < GRID_COLS
            invariant
                row < GRID_ROWS,
                col <= GRID_COLS,
                forall|r: int, c: int|
                    0 <= r < GRID_ROWS && 0 <= c < GRID_COLS ==> (#[trigger] kind_buf[r][c] == if r < row
                        || (r == row && c < col) {
                        Some(layout[r][c])
                    } else {
                        None::<GemType>
                    }),
                forall|r: int, c: int|
                    0 <= r < GRID_ROWS && 0 <= c < GRID_COLS && (r < row || (r == row && c < col))
                        ==> !completes_run(kinds_seq(kind_buf), c, r, #[trigger] layout[r][c]),
                kinds_seq(kind_buf) == board_after(*draws, (row * GRID_COLS + col) as nat),
            decreases GRID_COLS - col,
        {
            let ghost before = kind_buf;
            let count = GemType::allowed_kinds_at(col, row, &kind_buf).len();
            proof {
                lemma_allowed_kinds(kinds_seq(kind_buf), col as int, row as int);
            }
            let gem_type = GemType::pick_allowed(col, row, &kind_buf, draws[row][col] % count);
            proof {
                assert(allowed_kinds(kinds_seq(kind_buf), col as int, row as int)[(draws[row as int][col as int] % count) as int] == gem_type);
            }
            kind_buf[row][col] = Some(gem_type);
            layout[row][col] = gem_type;
            proof {
                // Cells left of and above an earlier cell were written before
                // it and are untouched by this write.
                assert forall|r: int, c: int|
                    0 <= r < GRID_ROWS && 0 <= c < GRID_COLS && (r < row || (r == row && c < col + 1))
                        implies !completes_run(kinds_seq(kind_buf), c, r, #[trigger] layout[r][c]) by {
                    if c >= 1 { assert(before[r][c - 1] == kind_buf[r][c - 1]); }
                    if c >= 2 { assert(before[r][c - 2] == kind_buf[r][c - 2]); }
                    if r >= 1 { assert(before[r - 1][c] == kind_buf[r - 1][c]); }
                    if r >= 2 { assert(before[r - 2][c] == kind_buf[r - 2][c]); }
                    if !(r == row && c == col) {
                        assert(!completes_run(kinds_seq(before), c, r, layout[r][c]));
                    }
                }
                let n = row * GRID_COLS + col;
                lemma_pos_of(n as int);
                lemma_row_major_injective(pos_of(n as int), GridPos { col, row });
                assert(kinds_seq(kind_buf) =~~= with_cell(kinds_seq(before), GridPos { col, row }, Some(gem_type)));
                assert(kinds_seq(kind_buf) == board_after(*draws, (n + 1) as nat));
            }
            col = col + 1;
        }
        row = row + 1;
    }
    proof {
        let b = layout_seq(layout);
        assert(kinds_seq(kind_buf) =~~= b);
        assert(layout_seq(layout) == board_after(*draws, (GRID_ROWS * GRID_COLS) as nat));
        assert forall|r: int, c: int| 0 <= r < GRID_ROWS && 0 <= c < GRID_COLS implies !in_match(b, r, c) by {
            lemma_no_run_in_layout(layout, r, c);
        }
    }
    layout
}

/// Every draw lies below `bound`.
pub open spec fn draws_below(draws: [[usize; GRID_COLS]; GRID_ROWS], bound: int) -> bool {
    forall|r: int, c: int| 0 <= r < GRID_ROWS && 0 <= c < GRID_COLS ==> #[trigger] draws[r][c] < bound
}

/// One uniform draw below `bound` for every board cell.
pub(crate) fn random_draws(bound: usize) -> (draws: [[usize; GRID_COLS]; GRID_ROWS])
    requires
        bound > 0,
    ensures
        draws_below(draws, bound as int),
{
    let mut draws: [[usize; GRID_COLS]; GRID_ROWS] = [[0; GRID_COLS]; GRID_ROWS];
    let mut row: usize = 0;
    while row < GRID_ROWS
        invariant
            row <= GRID_ROWS,
            bound > 0,
            forall|r: int, c: int|
                0 <= r < row && 0 <= c < GRID_COLS ==> #[trigger] draws[r][c] < bound,
        decreases GRID_ROWS - row,
    {
        let mut col: usize = 0;
        while col < GRID_COLS
            invariant
                row < GRID_ROWS,
                col <= GRID_COLS,
                bound > 0,
                forall|r: int, c: int|
                    0 <= r < GRID_ROWS && 0 <= c < GRID_COLS && (r < row || (r == row && c < col))
                        ==> #[trigger] draws[r][c] < bound,
            decreases GRID_COLS - col,
        {
            draws[row][col] = random_index(bound);
            col = col + 1;
        }
        row = row + 1;
    }
    draws
}

/// A random layout for a new board: 64 uniform draws below 60, one per
/// cell, turned into a layout by [`layout_from_draws`]. Sixty is a multiple
/// of every possible number of allowed kinds (3, 4 or 5), so each cell takes
/// each allowed kind with equal chance, as repeated calls of
/// [`GemType::random_no_match`] would. No cell starts in a match.
pub fn random_layout() -> (layout: [[GemType; GRID_COLS]; GRID_ROWS])
    ensures
        forall|r: int, c: int|
            0 <= r < GRID_ROWS && 0 <= c < GRID_COLS ==> !in_match(layout_seq(layout), r, c),
        exists|draws: [[usize; GRID_COLS]; GRID_ROWS]|
            draws_below(draws, 60) && layout_seq(layout) == #[trigger] board_after(
                draws,
                (GRID_ROWS * GRID_COLS) as nat,
            ),
{
    let draws = random_draws(60);
    layout_from_draws(&draws)
}

/// In a layout where no cell completes a run with the two cells to its left
/// or above, no cell lies in a run.
proof fn lemma_no_run_in_layout(layout: [[GemType; GRID_COLS]; GRID_ROWS], r: int, c: int)
    requires
        0 <= r < GRID_ROWS,
        0 <= c < GRID_COLS,
        forall|r: int, c: int|
            0 <= r < GRID_ROWS && 0 <= c < GRID_COLS ==> !completes_run(
                layout_seq(layout),
                c,
                r,
                #[trigger] layout[r][c],
            ),
    ensures
        !in_match(layout_seq(layout), r, c),
{
    let b = layout_seq(layout);
    if crate::runs::in_run(b[r], c) {
        let (a, e) = choose|a: int, e: int| a <= c <= e && #[trigger] is_run(b[r], a, e);
        assert(b[r][a + 1] == b[r][a]);
        assert(b[r][a + 2] == b[r][a]);
        assert(!completes_run(b, a + 2, r, layout[r][a + 2]));
    }
    let cl = crate::board::column_of(b, c);
    if crate::runs::in_run(cl, r) {
        let (a, e) = choose|a: int, e: int| a <= r <= e && #[trigger] is_run(cl, a, e);
        assert(cl[a + 1] == cl[a]);
        assert(cl[a + 2] == cl[a]);
        assert(!completes_run(b, c, a + 2, layout[a + 2][c]));
    }
}

} // verus!
