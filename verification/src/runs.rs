//! Runs of equal gems along one line (a board row or column).

use vstd::prelude::*;

use crate::game_logic::MINIMUM_MATCH;
use crate::gems::GemType;

verus! {

/// `line[a..=b]` is a run: at least `MINIMUM_MATCH` consecutive cells that all
/// hold the same gem.
pub open spec fn is_run(line: Seq<Option<GemType>>, a: int, b: int) -> bool {
    &&& 0 <= a <= b < line.len()
    &&& b - a + 1 >= MINIMUM_MATCH
    &&& line[a] is Some
    &&& forall|j: int| a <= j <= b ==> #[trigger] line[j] == line[a]
}

/// Cell `i` of `line` lies inside some run.
pub open spec fn in_run(line: Seq<Option<GemType>>, i: int) -> bool {
    exists|a: int, b: int| a <= i <= b && #[trigger] is_run(line, a, b)
}

/// Within a maximal block `line[s..e]` of one gem, a cell lies in a run
/// exactly when the block is at least `MINIMUM_MATCH` long.
pub proof fn lemma_maximal_block(line: Seq<Option<GemType>>, s: int, e: int, i: int)
    requires
        0 <= s <= i < e <= line.len(),
        line[s] is Some,
        forall|j: int| s <= j < e ==> #[trigger] line[j] == line[s],
        s == 0 || line[s - 1] != line[s],
        e == line.len() || line[e] != line[s],
    ensures
        in_run(line, i) <==> e - s >= MINIMUM_MATCH,
{
    if e - s >= MINIMUM_MATCH {
        assert(is_run(line, s, e - 1));
    }
    if in_run(line, i) {
        let (a, b) = choose|a: int, b: int| a <= i <= b && #[trigger] is_run(line, a, b);
        assert(line[i] == line[a]);
        assert(line[i] == line[s]);
        if a < s {
            assert(line[s - 1] == line[a]);
        }
        if b >= e {
            assert(line[e] == line[a]);
        }
    }
}

/// A cell that holds no gem is never inside a run.
pub proof fn lemma_empty_not_in_run(line: Seq<Option<GemType>>, i: int)
    requires
        0 <= i < line.len(),
        line[i] is None,
    ensures
        !in_run(line, i),
{
    if in_run(line, i) {
        let (a, b) = choose|a: int, b: int| a <= i <= b && #[trigger] is_run(line, a, b);
        assert(line[i] == line[a]);
    }
}

/// `a == b` on optional gems.
pub fn same_cell(a: Option<GemType>, b: Option<GemType>) -> (r: bool)
    ensures
        r == (a == b),
{
    match (a, b) {
        (None, None) => true,
        (Some(x), Some(y)) => x == y,
        _ => false,
    }
}

/// Returns, in increasing order, the indices within `line` that lie inside a
/// run of at least `MINIMUM_MATCH` equal gems.
pub fn find_run_indices(line: &[Option<GemType>]) -> (result: Vec<usize>)
    ensures
        forall|k: int| 0 <= k < result.len() ==> result[k] < line.len(),
        forall|k1: int, k2: int| 0 <= k1 < k2 < result.len() ==> result[k1] < result[k2],
        forall|i: int|
            0 <= i < line.len() ==> (result@.contains(i as usize) <==> in_run(line@, i)),
{
    let mut result: Vec<usize> = Vec::new();
    let mut run_start: usize = 0;
    let n = line.len();
    let ghost l = line@;

    // Iterate one past the end so the final run is always flushed.
    let mut k: usize = 0;
    while k < n
        invariant
            n == line.len(),
            l == line@,
            k <= n,
            run_start <= k,
            k == n ==> run_start == n,
            k < n ==> forall|j: int| run_start <= j <= k ==> #[trigger] l[j] == l[run_start as int],
            k < n && run_start > 0 && l[run_start as int] is Some ==> l[run_start - 1] != l[run_start as int],
            forall|q: int| 0 <= q < result.len() ==> result[q] < run_start,
            forall|k1: int, k2: int| 0 <= k1 < k2 < result.len() ==> result[k1] < result[k2],
            forall|x: int|
                0 <= x < run_start ==> (result@.contains(x as usize) <==> in_run(l, x)),
        decreases n - k,
    {
        let i = k + 1;
        let prev = line[i - 1];
        let cur = if i < n { line[i] } else { None };

        if !same_cell(cur, prev) || prev.is_none() {
            let ghost s = run_start as int;
            let ghost e = i as int;
            proof {
                assert(l[e - 1] == l[s]);
                if l[s] is Some {
                    assert forall|x: int| s <= x < e implies in_run(l, x) <==> e - s >= MINIMUM_MATCH by {
                        lemma_maximal_block(l, s, e, x);
                    }
                } else {
                    assert forall|x: int| s <= x < e implies !in_run(l, x) by {
                        assert(l[x] == l[s]);
                        lemma_empty_not_in_run(l, x);
                    }
                }
            }
            if prev.is_some() && i - run_start >= MINIMUM_MATCH as usize {
                let mut j = run_start;
                while j < i
                    invariant
                        run_start <= j <= i,
                        forall|q: int| 0 <= q < result.len() ==> result[q] < j,
                        forall|k1: int, k2: int|
                            0 <= k1 < k2 < result.len() ==> result[k1] < result[k2],
                        forall|x: int|
                            0 <= x < run_start ==> (result@.contains(x as usize) <==> in_run(
                                l,
                                x,
                            )),
                        forall|x: int| run_start <= x < j ==> #[trigger] result@.contains(x as usize),
                    decreases i - j,
                {
                    let ghost before = result@;
                    result.push(j);
                    proof {
                        assert(result@[result.len() - 1] == j);
                        assert forall|x: int| 0 <= x < run_start implies (result@.contains(
                            x as usize,
                        ) <==> in_run(l, x)) by {
                            if before.contains(x as usize) {
                                let q = choose|q: int|
                                    0 <= q < before.len() && before[q] == x as usize;
                                assert(result@[q] == x as usize);
                            }
                            if result@.contains(x as usize) {
                                let q = choose|q: int|
                                    0 <= q < result@.len() && result@[q] == x as usize;
                                if q < before.len() {
                                    assert(before[q] == x as usize);
                                }
                            }
                        }
                        assert forall|x: int| run_start <= x < j + 1 implies #[trigger] result@.contains(
                            x as usize,
                        ) by {
                            if x < j {
                                assert(before.contains(x as usize));
                                let q = choose|q: int|
                                    0 <= q < before.len() && before[q] == x as usize;
                                assert(result@[q] == x as usize);
                            } else {
                                assert(result@[result.len() - 1] == x as usize);
                            }
                        }
                    }
                    j = j + 1;
                }
                proof {
                    assert forall|x: int| 0 <= x < i implies (#[trigger] result@.contains(
                        x as usize,
                    ) <==> in_run(l, x)) by {
                        if x >= run_start {
                            assert(in_run(l, x) <==> e - s >= MINIMUM_MATCH);
                        }
                    }
                }
            } else {
                proof {
                    assert forall|x: int| 0 <= x < i implies (#[trigger] result@.contains(
                        x as usize,
                    ) <==> in_run(l, x)) by {
                        if x >= run_start {
                            if result@.contains(x as usize) {
                                let q = choose|q: int|
                                    0 <= q < result@.len() && result@[q] == x as usize;
                                assert(result[q] < run_start);
                            }
                            if l[s] is Some {
                                assert(in_run(l, x) <==> e - s >= MINIMUM_MATCH);
                            } else {
                                assert(!in_run(l, x));
                            }
                        }
                    }
                }
            }
            run_start = i;
        }
        k = k + 1;
    }
    result
}

} // verus!
