//! Logical techniques: each fills the cells whose digit it can prove.
use crate::geometry::{
    get_all_group_indices, group_spec, in_grid, lemma_group_sees, peer_spec, sees, SIZE,
};
use crate::puzzle::{
    agrees, at, before, cells_with, digits, empty_cells, extends, full_valid, grid_cells,
    group_values, lemma_assign_agrees, lemma_empty_cells_finite, lemma_group_in_grid, open_digits,
    peer_values, Puzzle, PuzzleView,
};
use crate::sets::{index_set_items, index_set_of, tally_count, tally_of};
use vstd::prelude::*;

verus! {

/// `t` follows from `s` by filling empty cells with candidates of `s` and
/// striking candidates: filled cells keep their digit, candidate sets
/// only shrink.
pub open spec fn deduced(s: PuzzleView, t: PuzzleView) -> bool {
    &&& extends(s.grid, t.grid)
    &&& forall|c: (usize, usize)|
        in_grid(c) && #[trigger] t.cell(c) != s.cell(c) ==> s.cell(c) == 0 && s.cand(c).contains(
            t.cell(c),
        )
    &&& forall|c: (usize, usize)| in_grid(c) ==> (#[trigger] t.cand(c)).subset_of(s.cand(c))
    &&& empty_cells(t.grid).subset_of(empty_cells(s.grid))
}

/// What holds at each point of a pass of a technique that started at `s`.
pub open spec fn pass_inv(s: PuzzleView, t: PuzzleView, progress: bool) -> bool {
    &&& deduced(s, t)
    &&& s.consistent() ==> t.consistent()
    &&& !progress ==> t == s
    &&& progress ==> empty_cells(t.grid).len() < empty_cells(s.grid).len()
    &&& s.consistent() ==> forall|h: Seq<Seq<usize>>|
        full_valid(h) && agrees(s, h) ==> #[trigger] agrees(t, h)
}

/// Some empty cell has exactly one candidate.
pub open spec fn has_naked_single(s: PuzzleView) -> bool {
    exists|c: (usize, usize)| in_grid(c) && #[trigger] s.cand(c).len() == 1
}

/// Some digit is a candidate of exactly one cell of some group.
pub open spec fn has_hidden_single(s: PuzzleView) -> bool {
    exists|k: int, v: usize|
        0 <= k < 27 && 1 <= v <= 9 && #[trigger] cells_with(s, group_spec(k), v).len() == 1
}

/// A way of deducing digits.
pub trait Technique {
    /// The technique finds something to fill in state `s`.
    spec fn finds(&self, s: PuzzleView) -> bool;

    /// The technique's name.
    fn get_name(&self) -> &'static str;

    /// One pass over the puzzle; true when it filled at least one cell,
    /// which it does exactly when it finds something to fill.
    fn apply(&self, puzzle: &mut Puzzle) -> (r: bool)
        requires
            old(puzzle).wf(),
        ensures
            final(puzzle).wf(),
            r == self.finds(old(puzzle)@),
            pass_inv(old(puzzle)@, final(puzzle)@, r),
    ;

}

/// Filling cell `(x, y)`, which lists `value`, keeps a pass's invariant,
/// now with progress.
proof fn lemma_assign_step(s: PuzzleView, t: PuzzleView, u: PuzzleView, value: usize, x: usize, y: usize, progress: bool)
    requires
        t.wf(),
        pass_inv(s, t, progress),
        x < 9,
        y < 9,
        t.cand((x, y)).contains(value),
        u.grid == t.grid.update(y as int, t.grid[y as int].update(x as int, value)),
        forall|c: (usize, usize)|
            in_grid(c) ==> #[trigger] u.cand(c) == if c == (x, y) {
                Set::<usize>::empty()
            } else if sees((x, y), c) {
                t.cand(c).remove(value)
            } else {
                t.cand(c)
            },
        t.consistent() && t.cell((x, y)) == 0 ==> u.consistent(),
        t.cell((x, y)) == 0 ==> empty_cells(u.grid) == empty_cells(t.grid).remove((x, y)),
        s.consistent() ==> forall|h: Seq<Seq<usize>>|
            full_valid(h) && agrees(s, h) ==> #[trigger] at(h, (x, y)) == value,
    ensures
        pass_inv(s, u, true),
        forall|c: (usize, usize)| in_grid(c) && c != (x, y) ==> #[trigger] u.cell(c) == t.cell(c),
        u.cell((x, y)) == value,
{
    assert(t.cell((x, y)) == 0);
    assert forall|c: (usize, usize)| in_grid(c) && c != (x, y) implies #[trigger] u.cell(c) == t.cell(c) by {
        if c.1 != y {
            assert(u.grid[c.1 as int] == t.grid[c.1 as int]);
        }
    }
    assert(s.cell((x, y)) == 0);
    assert forall|c: (usize, usize)| in_grid(c) implies (#[trigger] u.cand(c)).subset_of(s.cand(c)) by {
        assert(t.cand(c).subset_of(s.cand(c)));
    }
    lemma_empty_cells_finite(s.grid);
    lemma_empty_cells_finite(t.grid);
    vstd::set_lib::lemma_len_subset(empty_cells(t.grid), empty_cells(s.grid));
    assert(empty_cells(t.grid).contains((x, y)));
    if s.consistent() {
        assert forall|h: Seq<Seq<usize>>| full_valid(h) && agrees(s, h) implies #[trigger] agrees(u, h) by {
            assert(agrees(t, h));
            assert(at(h, (x, y)) == value);
            lemma_assign_agrees(t, u, h, value, x, y);
        }
    }
}

/// A digit that only cell `c` of group `k` lists is the digit of `c` in
/// every full valid grid that a consistent state agrees with.
proof fn lemma_hidden_forced(s: PuzzleView, h: Seq<Seq<usize>>, k: int, v: usize, c: (usize, usize))
    requires
        s.wf(),
        s.consistent(),
        agrees(s, h),
        full_valid(h),
        0 <= k < 27,
        1 <= v <= 9,
        cells_with(s, group_spec(k), v).len() == 1,
        cells_with(s, group_spec(k), v).contains(c),
    ensures
        at(h, c) == v,
{
    let g = group_spec(k);
    lemma_group_finite(k);
    assert(group_values(h, g) == digits());
    assert(group_values(h, g).contains(v));
    let e = choose|e: (usize, usize)| #[trigger] g.contains(e) && at(h, e) == v;
    lemma_group_in_grid(k, e);
    lemma_group_in_grid(k, c);
    assert(s.cell(c) == 0);
    if s.cell(e) != 0 {
        assert(s.cell(e) == v);
        lemma_group_sees(k, c, e);
        assert(peer_spec(c.0, c.1).contains(e));
        assert(peer_values(s.grid, c).contains(v));
        assert(s.cand(c) == open_digits(s.grid, c));
    } else {
        assert(s.cand(e).contains(v));
        let w = cells_with(s, g, v);
        assert(w.contains(e));
        if e != c {
            assert(w.remove(c).contains(e));
            vstd::set_lib::lemma_set_empty_equivalency_len(w.remove(c));
        }
    }
}

/// A group is a finite set.
proof fn lemma_group_finite(k: int)
    requires
        0 <= k < 27,
    ensures
        group_spec(k).finite(),
{
    lemma_empty_cells_finite(Seq::empty());
    assert forall|c: (usize, usize)| group_spec(k).contains(c) implies grid_cells().contains(c) by {
        lemma_group_in_grid(k, c);
    }
    vstd::set_lib::lemma_set_subset_finite(grid_cells(), group_spec(k));
}

/// Fills each cell that has a single candidate.
pub struct SingleCandidate;

/// Fills, in each group, each digit that only one cell can take.
pub struct HiddenSingle;

impl Technique for SingleCandidate {
    open spec fn finds(&self, s: PuzzleView) -> bool {
        has_naked_single(s)
    }

    fn get_name(&self) -> &'static str {
        "SingleCandidate"
    }

    fn apply(&self, puzzle: &mut Puzzle) -> (r: bool) {
        let ghost s = puzzle@;
        let mut is_progress: bool = false;
        let mut y: usize = 0;
        while y < SIZE
            invariant
                y <= 9,
                s == old(puzzle)@,
                puzzle.wf(),
                pass_inv(s, puzzle@, is_progress),
                is_progress ==> has_naked_single(s),
                !is_progress ==> forall|c: (usize, usize)|
                    in_grid(c) && before(c, (0, y)) ==> #[trigger] s.cand(c).len() != 1,
            decreases 9 - y,
        {
            let mut x: usize = 0;
            while x < SIZE
                invariant
                    y < 9,
                    x <= 9,
                    s == old(puzzle)@,
                    puzzle.wf(),
                    pass_inv(s, puzzle@, is_progress),
                    is_progress ==> has_naked_single(s),
                    !is_progress ==> forall|c: (usize, usize)|
                        in_grid(c) && before(c, (x, y)) ==> #[trigger] s.cand(c).len() != 1,
                decreases 9 - x,
            {
                let cands = puzzle.candidates_at(x, y);
                if cands.len() == 1 {
                    let value = cands[0];
                    let ghost t = puzzle@;
                    proof {
                        assert(cands@.to_set().contains(cands@[0]));
                        puzzle.lemma_view_wf();
                        assert(t.cand((x, y)).subset_of(crate::puzzle::digits()));
                        if !is_progress {
                            assert(s.cand((x, y)).len() == 1);
                        }
                        assert forall|d: usize| t.cand((x, y)).contains(d) implies d == value by {
                            assert(cands@.to_set().contains(d));
                            let i = choose|i: int| 0 <= i < cands@.len() && cands@[i] == d;
                        }
                        if s.consistent() {
                            assert forall|h: Seq<Seq<usize>>| full_valid(h) && agrees(s, h) implies #[trigger] at(h, (x, y)) == value by {
                                assert(agrees(t, h));
                                assert(t.cell((x, y)) == 0);
                            }
                        }
                    }
                    puzzle.assign_value_to_cell(value, x, y);
                    proof {
                        lemma_assign_step(s, t, puzzle@, value, x, y, is_progress);
                    }
                    is_progress = true;
                }
                x = x + 1;
            }
            y = y + 1;
        }
        is_progress
    }
}

impl Technique for HiddenSingle {
    open spec fn finds(&self, s: PuzzleView) -> bool {
        has_hidden_single(s)
    }

    fn get_name(&self) -> &'static str {
        "HiddenSingle"
    }

    fn apply(&self, puzzle: &mut Puzzle) -> (r: bool) {
        let ghost s = puzzle@;
        let mut is_progress: bool = false;
        let groups = get_all_group_indices();
        let mut k: usize = 0;
        while k < groups.len()
            invariant
                k <= 27,
                groups@.len() == 27,
                forall|k: int| 0 <= k < 27 ==> index_set_of(#[trigger] groups@[k]) == group_spec(k),
                s == old(puzzle)@,
                puzzle.wf(),
                pass_inv(s, puzzle@, is_progress),
                is_progress ==> has_hidden_single(s),
                !is_progress ==> forall|kk: int, v: usize|
                    0 <= kk < k && 1 <= v <= 9 ==> #[trigger] cells_with(s, group_spec(kk), v).len()
                        != 1,
            decreases 27 - k,
        {
            let group = &groups[k];
            assert forall|c: (usize, usize)| #[trigger] index_set_of(*group).contains(c) implies in_grid(c) by {
                lemma_group_in_grid(k as int, c);
            }
            let counter = puzzle.get_candidates_counter(group);
            let ghost s_k = puzzle@;
            proof {
                puzzle.lemma_view_wf();
            }
            let mut value: usize = 1;
            while value <= SIZE
                invariant
                    k < 27,
                    1 <= value <= 10,
                    index_set_of(*group) == group_spec(k as int),
                    forall|c: (usize, usize)| #[trigger] index_set_of(*group).contains(c) ==> in_grid(c),
                    forall|v: usize|
                        #[trigger] tally_of(counter).count(v) == cells_with(s_k, group_spec(k as int), v).len(),
                    s == old(puzzle)@,
                    puzzle.wf(),
                    pass_inv(s, puzzle@, is_progress),
                    !is_progress ==> s_k == s,
                    forall|c: (usize, usize)|
                        in_grid(c) ==> (#[trigger] puzzle@.cand(c)).subset_of(s_k.cand(c)),
                    is_progress ==> has_hidden_single(s),
                    !is_progress ==> forall|kk: int, v: usize|
                        ((0 <= kk < k && 1 <= v <= 9) || (kk == k && 1 <= v < value)) ==> #[trigger] cells_with(
                            s,
                            group_spec(kk),
                            v,
                        ).len() != 1,
                    s_k.wf(),
                    s.consistent() ==> s_k.consistent(),
                    s.consistent() ==> forall|h: Seq<Seq<usize>>|
                        full_valid(h) && agrees(s, h) ==> #[trigger] agrees(s_k, h),
                decreases 10 - value,
            {
                if tally_count(&counter, value) == 1 {
                    let found = puzzle.get_candidates_indices_by_value(value, group);
                    let cells = index_set_items(&found);
                    let ghost start = puzzle@;
                    proof {
                        lemma_group_finite(k as int);
                        let g = group_spec(k as int);
                        assert forall|c: (usize, usize)| #[trigger] cells_with(start, g, value).contains(c) implies cells_with(s_k, g, value).contains(c) by {
                            lemma_group_in_grid(k as int, c);
                            assert(start.cand(c).subset_of(s_k.cand(c)));
                        }
                        assert(cells_with(start, g, value).subset_of(cells_with(s_k, g, value)));
                        vstd::set_lib::lemma_len_subset(cells_with(start, g, value), cells_with(s_k, g, value));
                        cells@.unique_seq_to_set();
                        if !is_progress {
                            assert(cells_with(s, g, value).len() == 1);
                            assert(has_hidden_single(s));
                            if cells@.len() == 0 {
                                assert(cells@.to_set() =~= Set::<(usize, usize)>::empty());
                            }
                        }
                    }
                    let mut i: usize = 0;
                    while i < cells.len()
                        invariant
                            k < 27,
                            1 <= value <= 9,
                            i <= cells@.len(),
                            cells@.len() <= 1,
                            i == 0 ==> puzzle@ == start,
                            cells@.to_set() == cells_with(start, index_set_of(*group), value),
                            forall|c: (usize, usize)| #[trigger] index_set_of(*group).contains(c) ==> in_grid(c),
                            s == old(puzzle)@,
                            puzzle.wf(),
                            pass_inv(s, puzzle@, is_progress),
                            !is_progress ==> i == 0 && cells@.len() == 1 && has_hidden_single(s),
                            is_progress ==> has_hidden_single(s),
                            forall|c: (usize, usize)|
                                in_grid(c) ==> (#[trigger] puzzle@.cand(c)).subset_of(s_k.cand(c)),
                            s_k.wf(),
                            s.consistent() ==> s_k.consistent(),
                            s.consistent() ==> forall|h: Seq<Seq<usize>>|
                                full_valid(h) && agrees(s, h) ==> #[trigger] agrees(s_k, h),
                            cells_with(s_k, group_spec(k as int), value).len() == 1,
                            index_set_of(*group) == group_spec(k as int),
                        decreases cells@.len() - i,
                    {
                        let (x, y) = cells[i];
                        let ghost t = puzzle@;
                        proof {
                            assert(cells@.to_set().contains(cells@[i as int]));
                            assert(in_grid((x, y)));
                            puzzle.lemma_view_wf();
                            assert(start.cand((x, y)).subset_of(s_k.cand((x, y))));
                            assert(cells_with(start, group_spec(k as int), value).contains((x, y)));
                            assert(cells_with(s_k, group_spec(k as int), value).contains((x, y)));
                            if s.consistent() {
                                assert forall|h: Seq<Seq<usize>>| full_valid(h) && agrees(s, h) implies #[trigger] at(h, (x, y)) == value by {
                                    assert(agrees(s_k, h));
                                    lemma_hidden_forced(s_k, h, k as int, value, (x, y));
                                }
                            }
                        }
                        puzzle.assign_value_to_cell(value, x, y);
                        proof {
                            lemma_assign_step(s, t, puzzle@, value, x, y, is_progress);
                            assert forall|c: (usize, usize)| in_grid(c) implies (#[trigger] puzzle@.cand(
                                c,
                            )).subset_of(s_k.cand(c)) by {
                                assert(t.cand(c).subset_of(s_k.cand(c)));
                            }
                        }
                        is_progress = true;
                        i = i + 1;
                    }
                }
                value = value + 1;
            }
            k = k + 1;
        }
        is_progress
    }
}

} // verus!
