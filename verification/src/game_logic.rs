//! Scoring and the decisions that drive a turn: swap resolution and cascades.
//!
//! ```text
//! (Playing)
//!   a swap request → process_swap
//!     ├─ no match  → revert the swap, Invalid cue, stay in Playing
//!     └─ match     → Swap cue, go to Animating
//!
//! (Animating, once falling gems have landed)
//!   process_cascade
//!     ├─ no matches on the board
//!     │   ├─ a valid move exists → Playing
//!     │   └─ no valid move       → GameOver
//!     └─ matches found
//!         1. clear the matched cells (their entities are to be despawned)
//!         2. award points per cleared gem, Match cue
//!         3. apply gravity (compact each column downward)
//!         4. refill the top of each column with new gems
//!         5. stay in Animating: new gems must land before the next check
//! ```

use vstd::prelude::*;

use crate::audio::SoundEffect;
use crate::board::{
    Grid, GridPos, Refill, at, matched_cells, in_match, swapped, swap_makes_match, has_valid_swap,
    row_major, shaped, cleared, gravity_applied, lemma_matched_cells, lemma_in_match_occupied,
    refills_drawn, lemma_matched_cells_bounded, GRID_COLS, GRID_ROWS,
};
use crate::gems::GemType;
use crate::GameState;
use bevy::ecs::entity::Entity;

verus! {

/// How many cells should align for a match.
pub const MINIMUM_MATCH: u32 = 3;

/// Points for each cleared gem.
pub const POINTS_PER_CLEARED_GEM: u32 = 10;

/// The points for clearing `n` cells at once: `POINTS_PER_CLEARED_GEM` for
/// each cell.
pub open spec fn award(n: nat) -> nat {
    n * (POINTS_PER_CLEARED_GEM as nat)
}

/// The points for clearing `cells_cleared_at_once` cells at once:
/// `POINTS_PER_CLEARED_GEM` for each.
pub fn point_award(cells_cleared_at_once: u32) -> (points: u32)
    requires
        award(cells_cleared_at_once as nat) <= u32::MAX,
    ensures
        points == award(cells_cleared_at_once as nat),
{
    cells_cleared_at_once * POINTS_PER_CLEARED_GEM
}

/// The player's score.
#[derive(Debug)]
pub struct Score {
    pub value: u32,
}

/// The decimal digits of `n`, most significant first.
pub open spec fn decimal(n: nat) -> Seq<char>
    decreases n,
{
    if n < 10 {
        seq![digit_char(n)]
    } else {
        decimal(n / 10).push(digit_char(n % 10))
    }
}

/// The character of the decimal digit `d`.
pub open spec fn digit_char(d: nat) -> char {
    ('0' as nat + d) as char
}

/// Formats `value` in decimal with `format!("{}", value)`.
///
/// The contract claims what std documents of formatting a `u32` with `{}`:
/// its decimal digits, most significant first, without sign or padding.
#[verifier::external_body]
fn decimal_text(value: u32) -> (text: String)
    ensures
        text@ == decimal(value as nat),
{
    format!("{}", value)
}

impl Score {
    /// The score as shown to the player, such as `Score: 300`.
    pub fn to_string(&self) -> (text: String)
        ensures
            text@ == "Score: "@ + decimal(self.value as nat),
    {
        let mut text = String::from_str("Score: ");
        let digits = decimal_text(self.value);
        text.append(digits.as_str());
        text
    }
}

impl Default for Score {
    fn default() -> (s: Self)
        ensures
            s.value == 0,
    {
        Score { value: 0 }
    }
}

/// `a + b`, or `u32::MAX` where the sum does not fit.
pub open spec fn saturating_sum(a: int, b: int) -> int {
    if a + b > u32::MAX { u32::MAX as int } else { a + b }
}

/// What the game does after a swap request.
#[derive(Debug, Clone, Copy, PartialEq, Eq)]
pub struct SwapOutcome {
    /// The sound cue to play.
    pub sound: SoundEffect,
    /// The state to move to, if any.
    pub next_state: Option<GameState>,
}

/// Attempts to swap the gems at `pa` and `pb`.
///
/// - **The swap leaves either cell in a match** → the swap is kept, a `Swap`
///   cue is due and the game moves to [`GameState::Animating`].
/// - **No match** → the swap is reverted, so the board is as before, and an
///   `Invalid` cue is due.
pub fn process_swap(grid: &mut Grid, pa: GridPos, pb: GridPos) -> (outcome: SwapOutcome)
    requires
        pa.in_bounds(),
        pb.in_bounds(),
    ensures
        swap_makes_match(old(grid).kinds_view(), pa, pb) ==> {
            &&& final(grid).kinds_view() == swapped(old(grid).kinds_view(), pa, pb)
            &&& final(grid).entities_view() == swapped(old(grid).entities_view(), pa, pb)
            &&& outcome == (SwapOutcome { sound: SoundEffect::Swap, next_state: Some(GameState::Animating) })
        },
        !swap_makes_match(old(grid).kinds_view(), pa, pb) ==> {
            &&& final(grid).kinds_view() == old(grid).kinds_view()
            &&& final(grid).entities_view() == old(grid).entities_view()
            &&& outcome == (SwapOutcome { sound: SoundEffect::Invalid, next_state: None })
        },
{
    proof {
        grid.lemma_views();
    }
    grid.swap_cells(pa, pb);
    if !grid.swap_creates_match(pa, pb) {
        // Revert the swap in the authoritative grid data.
        grid.swap_cells(pa, pb);
        proof {
            crate::board::lemma_swap_involution(old(grid).kinds_view(), pa, pb);
            crate::board::lemma_swap_involution(old(grid).entities_view(), pa, pb);
        }
        SwapOutcome { sound: SoundEffect::Invalid, next_state: None }
    } else {
        SwapOutcome { sound: SoundEffect::Swap, next_state: Some(GameState::Animating) }
    }
}

/// What the game does after one cascade check.
#[derive(Debug)]
pub enum CascadeOutcome {
    /// Nothing matched and the board is unchanged; the game moves to the
    /// given state.
    Settled(GameState),
    /// Matched gems were cleared (a `Match` cue is due), their entities are
    /// to be despawned, and gravity left the `refills` cells empty, to be
    /// filled with new falling gems; the game stays in `Animating`.
    Cleared { despawned: Vec<Entity>, refills: Vec<Refill> },
}

/// `outcome`, the boards `(k1, e1)` and the score `s1` are what one cascade
/// step makes of the boards `(b, e)` and the score `s0`:
///
/// - nothing matched: nothing changes, and the game moves to `Playing` when
///   a valid swap exists, else to `GameOver`;
/// - otherwise the matched cells' entities are despawned in row-major order,
///   each cleared gem scores `POINTS_PER_CLEARED_GEM` (saturating at
///   `u32::MAX`), and gravity acts on the cleared boards.
pub open spec fn cascade_step(
    b: Seq<Seq<Option<GemType>>>,
    e: Seq<Seq<Option<Entity>>>,
    s0: u32,
    k1: Seq<Seq<Option<GemType>>>,
    e1: Seq<Seq<Option<Entity>>>,
    s1: u32,
    outcome: CascadeOutcome,
) -> bool {
    let m = matched_cells(b);
    match outcome {
        CascadeOutcome::Settled(state) => {
            &&& m.len() == 0
            &&& k1 == b
            &&& e1 == e
            &&& s1 == s0
            &&& state == if has_valid_swap(b) {
                GameState::Playing
            } else {
                GameState::GameOver
            }
        },
        CascadeOutcome::Cleared { despawned, refills } => {
            &&& m.len() > 0
            &&& despawned@.len() == m.len()
            &&& forall|i: int| 0 <= i < m.len() ==> Some(#[trigger] despawned@[i]) == at(e, m[i])
            &&& s1 == saturating_sum(s0 as int, award(m.len()) as int)
            &&& gravity_applied(cleared(b, b), cleared(e, b), k1, e1, refills@)
        },
    }
}

/// Resolves one cascade step, once all falling gems have landed.
///
/// 1. Looks for matches on the board.
/// 2. If none remain, the game goes back to [`GameState::Playing`], or to
///    [`GameState::GameOver`] when no swap can make a match.
/// 3. If matches are found: clears them, awards `POINTS_PER_CLEARED_GEM` per
///    cleared gem (saturating at `u32::MAX`), applies gravity and reports the
///    cells to refill, each with a uniformly random new kind.
pub fn process_cascade(grid: &mut Grid, score: &mut Score) -> (outcome: CascadeOutcome)
    ensures
        cascade_step(
            old(grid).kinds_view(),
            old(grid).entities_view(),
            old(score).value,
            final(grid).kinds_view(),
            final(grid).entities_view(),
            final(score).value,
            outcome,
        ),
        outcome matches CascadeOutcome::Cleared { refills, .. } ==> exists|draws: [[usize; GRID_COLS]; GRID_ROWS]|
            crate::gems::draws_below(draws, 5) && #[trigger] refills_drawn(refills@, draws),
{
    let draws = crate::gems::random_draws(5);
    process_cascade_with_draws(grid, score, &draws)
}

/// One cascade step as [`process_cascade`] takes it, with the kind of each
/// new gem picked by `draws` (see [`Grid::apply_gravity_with_draws`]).
pub fn process_cascade_with_draws(
    grid: &mut Grid,
    score: &mut Score,
    draws: &[[usize; GRID_COLS]; GRID_ROWS],
) -> (outcome: CascadeOutcome)
    ensures
        cascade_step(
            old(grid).kinds_view(),
            old(grid).entities_view(),
            old(score).value,
            final(grid).kinds_view(),
            final(grid).entities_view(),
            final(score).value,
            outcome,
        ),
        outcome matches CascadeOutcome::Cleared { refills, .. } ==> refills_drawn(refills@, *draws),
{
    let ghost b = grid.kinds_view();
    let ghost e = grid.entities_view();
    proof {
        use_type_invariant(&*grid);
        grid.lemma_views();
        lemma_matched_cells(b);
    }
    let matched = grid.find_all_matches();

    if matched.len() == 0 {
        if grid.has_any_valid_move() {
            return CascadeOutcome::Settled(GameState::Playing);
        } else {
            return CascadeOutcome::Settled(GameState::GameOver);
        }
    }

    proof {
        // Nothing is cleared yet: no matched cell comes before `matched[0]`.
        assert forall|p: GridPos| p.in_bounds() && in_match(b, p.row as int, p.col as int) implies
            row_major(p) >= row_major(matched[0]) by {
            assert(matched@.contains(p));
            let k = choose|k: int| 0 <= k < matched.len() && matched@[k] == p;
        }
    }
    let mut despawned: Vec<Entity> = Vec::new();
    let mut i: usize = 0;
    while i < matched.len()
        invariant
            i <= matched.len(),
            matched@ == matched_cells(b),
            shaped(b),
            shaped(e),
            forall|q: int, j: int| 0 <= q < j < matched.len() ==> row_major(matched[q]) < row_major(matched[j]),
            forall|q: int|
                0 <= q < matched.len() ==> (#[trigger] matched[q]).in_bounds() && in_match(
                    b,
                    matched[q].row as int,
                    matched[q].col as int,
                ),
            forall|p: GridPos|
                p.in_bounds() && in_match(b, p.row as int, p.col as int) ==> #[trigger] matched@.contains(p),
            forall|p: GridPos|
                p.in_bounds() ==> (#[trigger] at(grid.kinds_view(), p) == if in_match(b, p.row as int, p.col as int)
                    && (i == matched.len() || row_major(p) < row_major(matched[i as int])) {
                    None
                } else {
                    at(b, p)
                }),
            forall|p: GridPos|
                p.in_bounds() ==> (#[trigger] at(grid.entities_view(), p) == if in_match(b, p.row as int, p.col as int)
                    && (i == matched.len() || row_major(p) < row_major(matched[i as int])) {
                    None
                } else {
                    at(e, p)
                }),
            despawned.len() == i,
            forall|q: int| 0 <= q < i ==> Some(#[trigger] despawned[q]) == at(e, matched[q]),
            forall|p: GridPos| p.in_bounds() ==> (#[trigger] at(b, p) is Some <==> at(e, p) is Some),
        decreases matched.len() - i,
    {
        let pos = matched[i];
        proof {
            grid.lemma_views();
            lemma_in_match_occupied(b, pos.row as int, pos.col as int);
            assert(at(grid.kinds_view(), pos) == at(b, pos));
        }
        let ghost kv = grid.kinds_view();
        let ghost ev = grid.entities_view();
        let cleared_entity = grid.clear_cell(pos);
        match cleared_entity {
            Some(entity) => {
                despawned.push(entity);
            },
            None => {
                assert(false);
            },
        }
        proof {
            // The cells cleared so far are the matched cells before `matched[i + 1]`.
            assert forall|p: GridPos| p.in_bounds() && in_match(b, p.row as int, p.col as int) implies
                (p == pos || row_major(p) < row_major(matched[i as int])) <==> (i + 1 == matched.len()
                    || row_major(p) < row_major(matched[i + 1])) by {
                assert(matched@.contains(p));
                let k = choose|k: int| 0 <= k < matched.len() && matched@[k] == p;
                if k == i {
                    assert(p == pos);
                }
                if p == pos {
                    assert(k == i);
                }
            }
            assert forall|p: GridPos| p.in_bounds() implies (#[trigger] at(grid.kinds_view(), p) == if in_match(b, p.row as int, p.col as int)
                    && (i + 1 == matched.len() || row_major(p) < row_major(matched[i + 1])) {
                    None
                } else {
                    at(b, p)
                }) by {
                if p != pos {
                    assert(at(grid.kinds_view(), p) == at(kv, p));
                }
            }
            assert forall|p: GridPos| p.in_bounds() implies (#[trigger] at(grid.entities_view(), p) == if in_match(b, p.row as int, p.col as int)
                    && (i + 1 == matched.len() || row_major(p) < row_major(matched[i + 1])) {
                    None
                } else {
                    at(e, p)
                }) by {
                if p != pos {
                    assert(at(grid.entities_view(), p) == at(ev, p));
                }
            }
        }
        i = i + 1;
    }

    proof {
        grid.lemma_views();
        assert(grid.kinds_view() =~~= cleared(b, b)) by {
            assert forall|r: int, c: int| 0 <= r < crate::board::GRID_ROWS && 0 <= c < crate::board::GRID_COLS
                implies grid.kinds_view()[r][c] == cleared(b, b)[r][c] by {
                assert(at(grid.kinds_view(), GridPos { col: c as usize, row: r as usize }) == grid.kinds_view()[r][c]);
            }
        }
        assert(grid.entities_view() =~~= cleared(e, b)) by {
            assert forall|r: int, c: int| 0 <= r < crate::board::GRID_ROWS && 0 <= c < crate::board::GRID_COLS
                implies grid.entities_view()[r][c] == cleared(e, b)[r][c] by {
                assert(at(grid.entities_view(), GridPos { col: c as usize, row: r as usize }) == grid.entities_view()[r][c]);
            }
        }
    }

    proof {
        lemma_matched_cells_bounded(b);
    }
    score.value = score.value.saturating_add(point_award(matched.len() as u32));

    let refills = grid.apply_gravity_with_draws(draws);
    CascadeOutcome::Cleared { despawned, refills }
}

} // verus!
