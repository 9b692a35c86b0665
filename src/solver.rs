//! Solving: logical deduction to a fixed point, and a depth-first search
//! that branches on a cell when deduction stalls.
use crate::geometry::in_grid;
use crate::puzzle::{
    agrees, at, empty_cells, extends, full_valid, grid_of_string, grid_wf, lemma_agrees_solved,
    lemma_assign_agrees, lemma_digit_set_len, lemma_empty_cells_finite, lemma_impossible_agrees_none,
    lemma_initial_agrees, puzzle_string_ok, valid_solution, Puzzle, PuzzleView,
};
use crate::tech::{
    deduced, has_hidden_single, has_naked_single, HiddenSingle, SingleCandidate, Technique,
};
use vstd::prelude::*;

verus! {

/// `h` is a solution of grid `g`: a valid full grid that keeps the digits of `g`.
pub open spec fn solution_of(g: Seq<Seq<usize>>, h: Seq<Seq<usize>>) -> bool {
    grid_wf(h) && valid_solution(h) && extends(g, h)
}

/// Deduction composes.
pub proof fn lemma_deduced_trans(s: PuzzleView, t: PuzzleView, u: PuzzleView)
    requires
        deduced(s, t),
        deduced(t, u),
    ensures
        deduced(s, u),
{
    assert forall|c: (usize, usize)| in_grid(c) && #[trigger] u.cell(c) != s.cell(c) implies s.cell(c)
        == 0 && s.cand(c).contains(u.cell(c)) by {
        if u.cell(c) != t.cell(c) {
            assert(t.cand(c).subset_of(s.cand(c)));
        }
    }
    assert forall|c: (usize, usize)| in_grid(c) implies (#[trigger] u.cand(c)).subset_of(s.cand(c)) by {
        assert(t.cand(c).subset_of(s.cand(c)));
    }
}

/// Every state deduces itself.
pub proof fn lemma_deduced_refl(s: PuzzleView)
    ensures
        deduced(s, s),
{
}

/// Applies the techniques, single candidates first, until the grid is full
/// or a round fills nothing; true when the grid ends full and valid.
pub fn solve_logically(puzzle: &mut Puzzle) -> (r: bool)
    requires
        old(puzzle).wf(),
    ensures
        final(puzzle).wf(),
        deduced(old(puzzle)@, final(puzzle)@),
        old(puzzle)@.consistent() ==> final(puzzle)@.consistent(),
        r == (final(puzzle)@.solved() && valid_solution(final(puzzle)@.grid)),
        old(puzzle)@.solved() ==> final(puzzle)@ == old(puzzle)@,
        !final(puzzle)@.solved() ==> !has_naked_single(final(puzzle)@) && !has_hidden_single(
            final(puzzle)@,
        ),
        old(puzzle)@.consistent() ==> forall|h: Seq<Seq<usize>>|
            full_valid(h) && agrees(old(puzzle)@, h) ==> #[trigger] agrees(final(puzzle)@, h),
{
    let ghost s = puzzle@;
    let single = SingleCandidate;
    let hidden = HiddenSingle;
    let mut is_validated = false;
    proof {
        lemma_deduced_refl(s);
    }
    while !puzzle.is_solved()
        invariant
            s == old(puzzle)@,
            puzzle.wf(),
            deduced(s, puzzle@),
            s.consistent() ==> puzzle@.consistent(),
            s.solved() ==> puzzle@ == s,
            s.consistent() ==> forall|h: Seq<Seq<usize>>|
                full_valid(h) && agrees(s, h) ==> #[trigger] agrees(puzzle@, h),
        ensures
            !puzzle@.solved() ==> !has_naked_single(puzzle@) && !has_hidden_single(puzzle@),
        decreases empty_cells(puzzle@.grid).len(),
    {
        let ghost before = puzzle@;
        let p1 = single.apply(puzzle);
        let ghost mid = puzzle@;
        let p2 = hidden.apply(puzzle);
        proof {
            lemma_deduced_trans(before, mid, puzzle@);
            lemma_deduced_trans(s, before, puzzle@);
            lemma_empty_cells_finite(before.grid);
            lemma_empty_cells_finite(mid.grid);
            if s.consistent() {
                assert forall|h: Seq<Seq<usize>>| full_valid(h) && agrees(s, h) implies #[trigger] agrees(puzzle@, h) by {
                    assert(agrees(before, h));
                    assert(agrees(mid, h));
                }
            }
        }
        let progress = p1 || p2;
        if !progress {
            break;
        }
    }
    if puzzle.is_solved() {
        is_validated = puzzle.validate_solution();
    }
    is_validated
}

/// Ten to the power `n`.
pub open spec fn pow10(n: nat) -> nat
    decreases n,
{
    if n == 0 {
        1
    } else {
        10 * pow10((n - 1) as nat)
    }
}

proof fn lemma_pow10_mono(a: nat, b: nat)
    requires
        a <= b,
    ensures
        1 <= pow10(a) <= pow10(b),
    decreases b,
{
    if b > 0 {
        if a < b {
            lemma_pow10_mono(a, (b - 1) as nat);
        } else {
            lemma_pow10_mono((a - 1) as nat, (b - 1) as nat);
        }
    }
}

/// The number of empty cells of a state.
pub open spec fn empties(p: Puzzle) -> nat {
    empty_cells(p@.grid).len()
}

/// A measure of the work left on a stack of states: each state weighs ten
/// to the power of its empty cells.
pub open spec fn stack_weight(s: Seq<Puzzle>) -> nat
    decreases s.len(),
{
    if s.len() == 0 {
        0
    } else {
        stack_weight(s.drop_last()) + pow10(empties(s.last()))
    }
}

/// Some state of the stack agrees with `h`.
pub open spec fn stack_agrees(q: Seq<Puzzle>, h: Seq<Seq<usize>>) -> bool {
    exists|j: int| 0 <= j < q.len() && #[trigger] agrees(q[j]@, h)
}

/// Searches depth first for a solution: each state popped from a stack is
/// taken to a fixed point by `solve_logically`; a dead end is dropped;
/// otherwise each candidate of the cell chosen by
/// `find_cell_with_fewest_candidates` is tried on a copy. Returns the first
/// valid full grid found; from a consistent state, returns nothing only
/// when the grid has no solution.
pub fn find_solution(original_puzzle: Puzzle) -> (r: Option<Puzzle>)
    requires
        original_puzzle.wf(),
    ensures
        r matches Some(p) ==> p.wf() && p@.solved() && solution_of(original_puzzle@.grid, p@.grid),
        r is None && original_puzzle@.consistent() ==> !exists|h: Seq<Seq<usize>>|
            solution_of(original_puzzle@.grid, h),
{
    let ghost g0 = original_puzzle@.grid;
    let ghost c0 = original_puzzle@.consistent();
    let mut queue: Vec<Puzzle> = Vec::new();
    queue.push(original_puzzle);
    proof {
        lemma_deduced_refl(original_puzzle@);
        assert(queue@.drop_last() =~= Seq::<Puzzle>::empty());
        if c0 {
            assert forall|h: Seq<Seq<usize>>| solution_of(g0, h) implies #[trigger] stack_agrees(queue@, h) by {
                original_puzzle.lemma_view_wf();
                lemma_initial_agrees(original_puzzle@, h);
                assert(agrees(queue@[0]@, h));
            }
        }
    }
    while queue.len() > 0
        invariant
            g0 == original_puzzle@.grid,
            c0 == original_puzzle@.consistent(),
            forall|i: int| 0 <= i < queue@.len() ==> (#[trigger] queue@[i]).wf() && extends(
                g0,
                queue@[i]@.grid,
            ) && (c0 ==> queue@[i]@.consistent()),
            c0 ==> forall|h: Seq<Seq<usize>>| solution_of(g0, h) ==> #[trigger] stack_agrees(queue@, h),
        decreases stack_weight(queue@),
    {
        let ghost q0 = queue@;
        let mut puzzle = queue.pop().unwrap();
        let ghost e0 = empties(puzzle);
        assert(queue@ == q0.drop_last());
        let ghost rest_weight = stack_weight(queue@);
        let ghost popped = puzzle@;
        proof {
            if c0 {
                assert forall|h: Seq<Seq<usize>>| solution_of(g0, h) implies #[trigger] stack_agrees(queue@, h)
                    || agrees(popped, h) by {
                    assert(stack_agrees(q0, h));
                    let j = choose|j: int| 0 <= j < q0.len() && #[trigger] agrees(q0[j]@, h);
                    if j < q0.len() - 1 {
                        assert(queue@[j] == q0[j]);
                    }
                }
            }
        }
        let solved = solve_logically(&mut puzzle);
        assert forall|c: (usize, usize)| in_grid(c) && #[trigger] at(g0, c) != 0 implies at(
            puzzle@.grid,
            c,
        ) == at(g0, c) by {
            assert(at(popped.grid, c) == at(g0, c));
        }
        if solved {
            proof {
                puzzle.lemma_view_wf();
            }
            return Some(puzzle);
        }
        proof {
            lemma_empty_cells_finite(popped.grid);
            lemma_empty_cells_finite(puzzle@.grid);
            vstd::set_lib::lemma_len_subset(empty_cells(puzzle@.grid), empty_cells(popped.grid));
            lemma_pow10_mono(empties(puzzle), e0);
            puzzle.lemma_view_wf();
            if c0 {
                assert forall|h: Seq<Seq<usize>>| solution_of(g0, h) implies #[trigger] stack_agrees(queue@, h)
                    || (agrees(puzzle@, h) && !puzzle@.solved()) by {
                    if agrees(popped, h) {
                        assert(agrees(puzzle@, h));
                        if puzzle@.solved() {
                            lemma_agrees_solved(puzzle@, h);
                        }
                    }
                }
            }
        }
        if puzzle.is_impossible() {
            proof {
                if c0 {
                    assert forall|h: Seq<Seq<usize>>| solution_of(g0, h) implies #[trigger] stack_agrees(queue@, h) by {
                        lemma_impossible_agrees_none(puzzle@, h);
                    }
                }
            }
            continue;
        }
        let (x, y) = puzzle.find_cell_with_fewest_candidates();
        let cands = puzzle.candidates_at(x, y);
        let ghost e1 = empties(puzzle);
        let ghost settled = puzzle@;
        proof {
            puzzle.lemma_view_wf();
            lemma_digit_set_len(puzzle@.cand((x, y)));
            if cands@.len() > 0 {
                assert(cands@.to_set().contains(cands@[0]));
                assert(puzzle@.cell((x, y)) == 0);
                assert(empty_cells(puzzle@.grid).contains((x, y)));
                assert(e1 >= 1);
            }
            if c0 {
                assert forall|h: Seq<Seq<usize>>| solution_of(g0, h) && agrees(settled, h) implies settled.cand(
                    (x, y),
                ).contains(#[trigger] at(h, (x, y))) && settled.cell((x, y)) == 0 by {
                    if settled.solved() {
                        lemma_agrees_solved(settled, h);
                    }
                    assert(!settled.solved());
                    let c = choose|c: (usize, usize)| !(in_grid(c) ==> #[trigger] settled.cell(c) != 0);
                    assert(settled.cell(c) == 0);
                    assert(!settled.impossible());
                    assert(settled.cand(c).len() != 0);
                    if settled.cand(c).len() == 2 {
                        assert(settled.cand((x, y)).len() == 2);
                    } else {
                        assert(in_grid(c) && settled.cand(c).len() > 0);
                        assert(settled.cand((x, y)).len() > 0);
                    }
                    assert(settled.cand((x, y)).contains(cands@[0])) by {
                        if cands@.len() == 0 {
                            assert(cands@.to_set() =~= Set::<usize>::empty());
                        }
                        assert(cands@.to_set().contains(cands@[0]));
                    }
                    assert(settled.cell((x, y)) == 0);
                }
            }
        }
        let mut i: usize = 0;
        while i < cands.len()
            invariant
                g0 == original_puzzle@.grid,
                c0 == original_puzzle@.consistent(),
                puzzle.wf(),
                settled == puzzle@,
                c0 ==> settled.consistent(),
                e1 == empties(puzzle),
                x < 9,
                y < 9,
                cands@.len() <= 9,
                cands@.to_set() == puzzle@.cand((x, y)),
                cands@.len() > 0 ==> puzzle@.cell((x, y)) == 0 && e1 >= 1,
                extends(g0, puzzle@.grid),
                i <= cands@.len(),
                stack_weight(queue@) == rest_weight + i * pow10((e1 - 1) as nat),
                forall|i: int| 0 <= i < queue@.len() ==> (#[trigger] queue@[i]).wf() && extends(
                    g0,
                    queue@[i]@.grid,
                ) && (c0 ==> queue@[i]@.consistent()),
                c0 ==> forall|h: Seq<Seq<usize>>| solution_of(g0, h) ==> #[trigger] stack_agrees(queue@, h)
                    || (agrees(settled, h) && settled.cand((x, y)).contains(at(h, (x, y)))
                    && settled.cell((x, y)) == 0 && forall|j: int| 0 <= j < i ==> cands@[j] != at(h, (x, y))),
            decreases cands@.len() - i,
        {
            let cand = cands[i];
            proof {
                assert(cands@.to_set().contains(cands@[i as int]));
                puzzle.lemma_view_wf();
                assert(puzzle@.cand((x, y)).subset_of(crate::puzzle::digits()));
            }
            let mut new_puzzle: Puzzle = puzzle.copy();
            new_puzzle.assign_value_to_cell(cand, x, y);
            let ghost qb = queue@;
            queue.push(new_puzzle);
            proof {
                assert(queue@.drop_last() =~= qb);
                lemma_empty_cells_finite(puzzle@.grid);
                assert(empties(new_puzzle) == e1 - 1);
                assert forall|c: (usize, usize)| in_grid(c) && #[trigger] at(g0, c) != 0 implies at(
                    new_puzzle@.grid,
                    c,
                ) == at(g0, c) by {
                    if c != (x, y) {
                        if c.1 != y {
                            assert(new_puzzle@.grid[c.1 as int] == puzzle@.grid[c.1 as int]);
                        }
                    }
                }
                assert(stack_weight(queue@) == rest_weight + (i + 1) * pow10((e1 - 1) as nat)) by (nonlinear_arith)
                    requires
                        stack_weight(queue@) == stack_weight(qb) + pow10((e1 - 1) as nat),
                        stack_weight(qb) == rest_weight + i * pow10((e1 - 1) as nat),
                ;
                if c0 {
                    assert forall|h: Seq<Seq<usize>>| solution_of(g0, h) implies #[trigger] stack_agrees(queue@, h)
                        || (agrees(settled, h) && settled.cand((x, y)).contains(at(h, (x, y)))
                        && settled.cell((x, y)) == 0 && forall|j: int| 0 <= j < i + 1 ==> cands@[j] != at(h, (x, y))) by {
                        if stack_agrees(qb, h) {
                            let j = choose|j: int| 0 <= j < qb.len() && #[trigger] agrees(qb[j]@, h);
                            assert(queue@[j] == qb[j]);
                        } else if at(h, (x, y)) == cand {
                            lemma_assign_agrees(settled, new_puzzle@, h, cand, x, y);
                            assert(agrees(queue@[qb.len() as int]@, h));
                        }
                    }
                }
            }
            i = i + 1;
        }
        proof {
            if cands@.len() > 0 {
                assert(pow10(e1) == 10 * pow10((e1 - 1) as nat));
                assert(cands@.len() * pow10((e1 - 1) as nat) <= 9 * pow10((e1 - 1) as nat)) by (nonlinear_arith)
                    requires
                        cands@.len() <= 9,
                ;
            }
            if c0 {
                assert forall|h: Seq<Seq<usize>>| solution_of(g0, h) implies #[trigger] stack_agrees(queue@, h) by {
                    if !stack_agrees(queue@, h) {
                        assert(cands@.to_set().contains(at(h, (x, y))));
                        let j = choose|j: int| 0 <= j < cands@.len() && cands@[j] == at(h, (x, y));
                    }
                }
            }
        }
    }
    proof {
        if c0 {
            assert forall|h: Seq<Seq<usize>>| !solution_of(g0, h) by {
                if solution_of(g0, h) {
                    assert(stack_agrees(queue@, h));
                }
            }
        }
    }
    None
}

/// Whether the search finds a valid solution; from a consistent state
/// (such as one just read) it does exactly when the grid has one.
pub fn solve(original_puzzle: Puzzle) -> (r: bool)
    requires
        original_puzzle.wf(),
    ensures
        r ==> exists|h: Seq<Seq<usize>>| solution_of(original_puzzle@.grid, h),
        original_puzzle@.consistent() ==> (r <==> exists|h: Seq<Seq<usize>>|
            solution_of(original_puzzle@.grid, h)),
{
    let ghost g0 = original_puzzle@.grid;
    match find_solution(original_puzzle) {
        Some(p) => {
            assert(solution_of(g0, p@.grid));
            true
        },
        None => false,
    }
}

/// Reads and solves one puzzle; text that is not 81 digits counts as
/// unsolved.
pub fn solve_puzzle_by_string(puzzle_string: &str) -> (r: bool)
    ensures
        r <==> puzzle_string_ok(puzzle_string@) && exists|h: Seq<Seq<usize>>|
            solution_of(grid_of_string(puzzle_string@), h),
{
    match Puzzle::from_string(puzzle_string) {
        Ok(puzzle) => solve(puzzle),
        Err(_) => false,
    }
}

} // verus!
