//! The puzzle state: a grid of digits (`0` for an empty cell) and, for each
//! cell, the set of digits that may still go there.
use crate::bits::{bits_len, bits_of, copy_bits, count_bits, ones_of};
use crate::geometry::{
    get_all_box_indices, get_all_column_indices, get_all_row_indices, get_rcb_indices, group_spec,
    in_grid, lemma_group_len, lemma_groups_cover, lemma_sees_group, peer_spec, sees, SIZE,
};
use crate::sets::{
    index_set_insert, index_set_items, index_set_of, new_index_set, new_tally, tally_of,
    tally_update, IndexSet,
};
use counter::Counter;
use fixedbitset::FixedBitSet;
use vstd::prelude::*;

verus! {

/// The digits `1..=9`.
pub open spec fn digits() -> Set<usize> {
    Set::new(|d: usize| 1 <= d <= 9)
}

/// The value of cell `c` in a grid given as rows.
pub open spec fn at(grid: Seq<Seq<usize>>, c: (usize, usize)) -> usize {
    grid[c.1 as int][c.0 as int]
}

/// The values (`0` included) that the cells of `g` hold.
pub open spec fn group_values(grid: Seq<Seq<usize>>, g: Set<(usize, usize)>) -> Set<usize> {
    Set::new(|d: usize| exists|p: (usize, usize)| #[trigger] g.contains(p) && at(grid, p) == d)
}

/// The values that the cells seen from `c` hold.
pub open spec fn peer_values(grid: Seq<Seq<usize>>, c: (usize, usize)) -> Set<usize> {
    group_values(grid, peer_spec(c.0, c.1))
}

/// The digits still open for an empty cell `c` of `grid`.
pub open spec fn open_digits(grid: Seq<Seq<usize>>, c: (usize, usize)) -> Set<usize> {
    digits().difference(peer_values(grid, c))
}

/// Every row, column and box holds the digits `1..=9`, each once.
pub open spec fn valid_solution(grid: Seq<Seq<usize>>) -> bool {
    forall|k: int| 0 <= k < 27 ==> #[trigger] group_values(grid, group_spec(k)) == digits()
}

/// A 9×9 grid of values in `0..=9`.
pub open spec fn grid_wf(grid: Seq<Seq<usize>>) -> bool {
    &&& grid.len() == 9
    &&& forall|y: int| 0 <= y < 9 ==> #[trigger] grid[y].len() == 9
    &&& forall|c: (usize, usize)| in_grid(c) ==> #[trigger] at(grid, c) <= 9
}

/// The cells of the grid.
pub open spec fn grid_cells() -> Set<(usize, usize)> {
    Set::new(|c: (usize, usize)| in_grid(c))
}

/// The empty cells of a grid.
pub open spec fn empty_cells(grid: Seq<Seq<usize>>) -> Set<(usize, usize)> {
    Set::new(|c: (usize, usize)| in_grid(c) && at(grid, c) == 0)
}

/// Grid `h` keeps every value that grid `g` holds.
pub open spec fn extends(g: Seq<Seq<usize>>, h: Seq<Seq<usize>>) -> bool {
    forall|c: (usize, usize)| in_grid(c) && #[trigger] at(g, c) != 0 ==> at(h, c) == at(g, c)
}

/// The grid has finitely many cells, and so finitely many empty ones.
pub proof fn lemma_empty_cells_finite(grid: Seq<Seq<usize>>)
    ensures
        grid_cells().finite(),
        empty_cells(grid).finite(),
        empty_cells(grid).len() <= grid_cells().len(),
{
    let s = Seq::new(81, |i: int| ((i % 9) as usize, (i / 9) as usize));
    assert forall|c: (usize, usize)| in_grid(c) implies s.contains(c) by {
        let i = 9 * c.1 + c.0;
        assert(s[i as int] == c);
    }
    assert(grid_cells() =~= s.to_set());
    vstd::seq_lib::seq_to_set_is_finite(s);
    assert(empty_cells(grid).subset_of(grid_cells()));
    vstd::set_lib::lemma_len_subset(empty_cells(grid), grid_cells());
}

/// What a puzzle state holds: its grid and the candidate digits of each cell.
pub struct PuzzleView {
    pub grid: Seq<Seq<usize>>,
    pub cands: Seq<Seq<Set<usize>>>,
}

impl PuzzleView {
    pub open spec fn cell(self, c: (usize, usize)) -> usize {
        at(self.grid, c)
    }

    pub open spec fn cand(self, c: (usize, usize)) -> Set<usize> {
        self.cands[c.1 as int][c.0 as int]
    }

    /// The shape of a state: candidates are digits, and a filled cell has none.
    pub open spec fn wf(self) -> bool {
        &&& grid_wf(self.grid)
        &&& self.cands.len() == 9
        &&& forall|y: int| 0 <= y < 9 ==> #[trigger] self.cands[y].len() == 9
        &&& forall|c: (usize, usize)|
            in_grid(c) ==> {
                &&& (#[trigger] self.cand(c)).finite()
                &&& self.cand(c).subset_of(digits())
                &&& (self.cell(c) != 0 ==> self.cand(c) == Set::<usize>::empty())
            }
    }

    /// Each empty cell lists exactly the digits that none of its peers holds.
    pub open spec fn consistent(self) -> bool {
        forall|c: (usize, usize)|
            in_grid(c) && self.cell(c) == 0 ==> #[trigger] self.cand(c) == open_digits(self.grid, c)
    }

    /// No cell is empty.
    pub open spec fn solved(self) -> bool {
        forall|c: (usize, usize)| in_grid(c) ==> #[trigger] self.cell(c) != 0
    }

    /// Some empty cell has no candidate left.
    pub open spec fn impossible(self) -> bool {
        exists|c: (usize, usize)|
            in_grid(c) && #[trigger] self.cell(c) == 0 && self.cand(c).len() == 0
    }
}

/// The error of reading a puzzle: the text is not 81 digits.
#[derive(Debug, Clone, Copy, PartialEq, Eq)]
pub enum FormatError {
    /// The text does not have 81 characters.
    WrongLength,
    /// A character is not a digit `0..=9`.
    NotADigit,
}

/// The text of a puzzle: 81 digits, row by row.
pub open spec fn puzzle_string_ok(s: Seq<char>) -> bool {
    s.len() == 81 && forall|i: int| 0 <= i < 81 ==> '0' <= #[trigger] s[i] <= '9'
}

/// The grid that the text of a puzzle gives: cell `(x, y)` is character `9 * y + x`.
pub open spec fn grid_of_string(s: Seq<char>) -> Seq<Seq<usize>> {
    Seq::new(9, |y: int| Seq::new(9, |x: int| (s[9 * y + x] as u32 - '0' as u32) as usize))
}

/// The rows of a grid, as sequences.
pub open spec fn rows_of(g: Seq<Vec<usize>>) -> Seq<Seq<usize>> {
    g.map_values(|r: Vec<usize>| r@)
}

pub struct Puzzle {
    grid: Vec<Vec<usize>>,
    candidates: Vec<Vec<FixedBitSet>>,
}

impl View for Puzzle {
    type V = PuzzleView;

    closed spec fn view(&self) -> PuzzleView {
        PuzzleView {
            grid: rows_of(self.grid@),
            cands: self.candidates@.map_values(
                |r: Vec<FixedBitSet>| r@.map_values(|b: FixedBitSet| bits_of(b)),
            ),
        }
    }
}

impl Puzzle {
    /// The state is well formed: its view is, and each bit set holds ten bits.
    pub closed spec fn wf(&self) -> bool {
        &&& self@.wf()
        &&& self.shape()
    }

    /// A well-formed state has a well-formed view.
    pub proof fn lemma_view_wf(&self)
        requires
            self.wf(),
        ensures
            self@.wf(),
    {
    }

    /// Nine rows of nine cells, each bit set of ten bits.
    closed spec fn shape(&self) -> bool {
        &&& self.grid@.len() == 9
        &&& self.candidates@.len() == 9
        &&& forall|y: int| 0 <= y < 9 ==> #[trigger] self.candidates@[y]@.len() == 9
        &&& forall|y: int, x: int|
            0 <= y < 9 && 0 <= x < 9 ==> bits_len(#[trigger] self.candidates@[y]@[x]) == 10
    }

    /// The values that the cells of `group` hold, as a bit set.
    fn group_value_bits(grid: &Vec<Vec<usize>>, group: &IndexSet) -> (r: FixedBitSet)
        requires
            grid_wf(rows_of(grid@)),
            forall|c: (usize, usize)| #[trigger] index_set_of(*group).contains(c) ==> in_grid(c),
        ensures
            bits_of(r) == group_values(rows_of(grid@), index_set_of(*group)),
            bits_of(r).finite(),
            bits_len(r) == 10,
    {
        let ghost g = rows_of(grid@);
        let items = index_set_items(group);
        let mut numset = FixedBitSet::with_capacity(SIZE + 1);
        let mut k: usize = 0;
        while k < items.len()
            invariant
                grid_wf(g),
                g == rows_of(grid@),
                forall|c: (usize, usize)| #[trigger] index_set_of(*group).contains(c) ==> in_grid(c),
                items@.to_set() == index_set_of(*group),
                k <= items@.len(),
                bits_len(numset) == 10,
                bits_of(numset).finite(),
                bits_of(numset) == Set::new(
                    |d: usize| exists|i: int| 0 <= i < k && at(g, #[trigger] items@[i]) == d,
                ),
            decreases items@.len() - k,
        {
            let (i, j) = items[k];
            assert(items@.to_set().contains(items@[k as int]));
            assert(g[j as int] == grid@[j as int]@);
            assert(in_grid((i, j)));
            assert(at(g, (i, j)) <= 9);
            numset.insert(grid[j][i]);
            k = k + 1;
            assert(bits_of(numset) =~= Set::new(
                |d: usize| exists|i: int| 0 <= i < k && at(g, #[trigger] items@[i]) == d,
            ));
        }
        let ghost gs = index_set_of(*group);
        assert forall|d: usize| #[trigger] group_values(g, gs).contains(d) implies bits_of(
            numset,
        ).contains(d) by {
            let p = choose|p: (usize, usize)| #[trigger] gs.contains(p) && at(g, p) == d;
            assert(items@.to_set().contains(p));
            let i = choose|i: int| 0 <= i < items@.len() && items@[i] == p;
            assert(at(g, items@[i]) == d);
        }
        assert forall|d: usize| bits_of(numset).contains(d) implies #[trigger] group_values(
            g,
            gs,
        ).contains(d) by {
            let i = choose|i: int| 0 <= i < items@.len() && at(g, #[trigger] items@[i]) == d;
            assert(items@.to_set().contains(items@[i]));
        }
        assert(bits_of(numset) =~= group_values(g, gs));
        numset
    }

    /// The values that the cells seen from `(x, y)` hold, as a bit set.
    fn get_rcb(grid: &Vec<Vec<usize>>, x: usize, y: usize) -> (r: FixedBitSet)
        requires
            grid_wf(rows_of(grid@)),
            x < 9,
            y < 9,
        ensures
            bits_of(r) == peer_values(rows_of(grid@), (x, y)),
            bits_of(r).finite(),
            bits_len(r) == 10,
    {
        Puzzle::group_value_bits(grid, &get_rcb_indices(x, y))
    }

    /// The digits still open for the empty cell `(x, y)` of `grid`.
    fn get_candidates_for_cell(grid: &Vec<Vec<usize>>, x: usize, y: usize) -> (r: FixedBitSet)
        requires
            grid_wf(rows_of(grid@)),
            x < 9,
            y < 9,
        ensures
            bits_of(r) == open_digits(rows_of(grid@), (x, y)),
            bits_of(r).finite(),
            bits_len(r) == 10,
    {
        let mut all_values = FixedBitSet::with_capacity(SIZE + 1);
        let mut v: usize = 1;
        while v <= SIZE
            invariant
                1 <= v <= 10,
                bits_len(all_values) == 10,
                bits_of(all_values).finite(),
                bits_of(all_values) == Set::new(|d: usize| 1 <= d < v),
            decreases 10 - v,
        {
            all_values.insert(v);
            v = v + 1;
            assert(bits_of(all_values) =~= Set::new(|d: usize| 1 <= d < v));
        }
        let rcb = Puzzle::get_rcb(grid, x, y);
        all_values.difference_with(&rcb);
        assert(bits_of(all_values) =~= open_digits(rows_of(grid@), (x, y)));
        all_values
    }

    /// The state of a grid: each empty cell gets the digits that its peers
    /// leave open, each filled cell none.
    fn new(grid: Vec<Vec<usize>>) -> (r: Puzzle)
        requires
            grid_wf(rows_of(grid@)),
        ensures
            r.wf(),
            r@.grid == rows_of(grid@),
            r@.consistent(),
    {
        let ghost g = rows_of(grid@);
        let mut candidates: Vec<Vec<FixedBitSet>> = Vec::new();
        let mut y: usize = 0;
        while y < SIZE
            invariant
                y <= 9,
                grid_wf(g),
                g == rows_of(grid@),
                candidates@.len() == y,
                forall|j: int| 0 <= j < y ==> #[trigger] candidates@[j]@.len() == 9,
                forall|j: int, i: int|
                    0 <= j < y && 0 <= i < 9 ==> {
                        &&& bits_len(#[trigger] candidates@[j]@[i]) == 10
                        &&& bits_of(candidates@[j]@[i]).finite()
                        &&& bits_of(candidates@[j]@[i]) == if g[j][i] == 0 {
                            open_digits(g, (i as usize, j as usize))
                        } else {
                            Set::<usize>::empty()
                        }
                    },
            decreases 9 - y,
        {
            let mut row: Vec<FixedBitSet> = Vec::new();
            let mut x: usize = 0;
            while x < SIZE
                invariant
                    x <= 9,
                    y < 9,
                    grid_wf(g),
                    g == rows_of(grid@),
                    row@.len() == x,
                    forall|i: int|
                        0 <= i < x ==> {
                            &&& bits_len(#[trigger] row@[i]) == 10
                            &&& bits_of(row@[i]).finite()
                            &&& bits_of(row@[i]) == if g[y as int][i] == 0 {
                                open_digits(g, (i as usize, y))
                            } else {
                                Set::<usize>::empty()
                            }
                        },
                decreases 9 - x,
            {
                assert(g[y as int] == grid@[y as int]@);
                assert(at(g, (x, y)) <= 9);
                if grid[y][x] == 0 {
                    row.push(Puzzle::get_candidates_for_cell(&grid, x, y));
                } else {
                    row.push(FixedBitSet::with_capacity(SIZE + 1));
                }
                x = x + 1;
            }
            candidates.push(row);
            y = y + 1;
        }
        let r = Puzzle { grid, candidates };
        assert forall|c: (usize, usize)| in_grid(c) implies {
            &&& (#[trigger] r@.cand(c)).finite()
            &&& r@.cand(c).subset_of(digits())
            &&& (r@.cell(c) != 0 ==> r@.cand(c) == Set::<usize>::empty())
            &&& (r@.cell(c) == 0 ==> r@.cand(c) == open_digits(r@.grid, c))
        } by {
            assert(r@.cand(c) == bits_of(r.candidates@[c.1 as int]@[c.0 as int]));
        }
        r
    }

    /// Reads a puzzle from its text: 81 digits, row by row, `0` for an
    /// empty cell.
    pub fn from_string(puzzle_string: &str) -> (r: Result<Puzzle, FormatError>)
        ensures
            r is Ok <==> puzzle_string_ok(puzzle_string@),
            r == Err::<Puzzle, FormatError>(FormatError::WrongLength) <==> puzzle_string@.len() != 81,
            r matches Ok(p) ==> {
                &&& p.wf()
                &&& p@.grid == grid_of_string(puzzle_string@)
                &&& p@.consistent()
            },
    {
        if puzzle_string.unicode_len() != SIZE * SIZE {
            return Err(FormatError::WrongLength);
        }
        let ghost s = puzzle_string@;
        let mut grid: Vec<Vec<usize>> = Vec::new();
        let mut y: usize = 0;
        while y < SIZE
            invariant
                y <= 9,
                s == puzzle_string@,
                s.len() == 81,
                grid@.len() == y,
                forall|j: int| 0 <= j < 9 * y ==> '0' <= #[trigger] s[j] <= '9',
                forall|j: int| 0 <= j < y ==> (#[trigger] grid@[j])@ == grid_of_string(s)[j],
            decreases 9 - y,
        {
            let mut row: Vec<usize> = Vec::new();
            let mut x: usize = 0;
            while x < SIZE
                invariant
                    x <= 9,
                    y < 9,
                    s == puzzle_string@,
                    s.len() == 81,
                    forall|j: int| 0 <= j < 9 * y + x ==> '0' <= #[trigger] s[j] <= '9',
                    row@.len() == x,
                    forall|i: int| 0 <= i < x ==> #[trigger] row@[i] == grid_of_string(s)[y as int][i],
                decreases 9 - x,
            {
                let value = puzzle_string.get_char(SIZE * y + x);
                if value < '0' || value > '9' {
                    return Err(FormatError::NotADigit);
                }
                row.push((value as u32 - '0' as u32) as usize);
                x = x + 1;
            }
            assert(row@ =~= grid_of_string(s)[y as int]);
            grid.push(row);
            y = y + 1;
        }
        assert(rows_of(grid@) =~= grid_of_string(s));
        assert forall|c: (usize, usize)| in_grid(c) implies #[trigger] at(rows_of(grid@), c) <= 9 by {
            assert(s[9 * c.1 + c.0] <= '9');
        }
        Ok(Puzzle::new(grid))
    }

    /// Whether every cell is filled.
    pub fn is_solved(&self) -> (r: bool)
        requires
            self.wf(),
        ensures
            r == self@.solved(),
    {
        let mut y: usize = 0;
        while y < SIZE
            invariant
                self.wf(),
                y <= 9,
                forall|c: (usize, usize)| in_grid(c) && c.1 < y ==> #[trigger] self@.cell(c) != 0,
            decreases 9 - y,
        {
            let mut x: usize = 0;
            while x < SIZE
                invariant
                    self.wf(),
                    y < 9,
                    x <= 9,
                    forall|c: (usize, usize)|
                        in_grid(c) && (c.1 < y || (c.1 == y && c.0 < x)) ==> #[trigger] self@.cell(
                            c,
                        ) != 0,
                decreases 9 - x,
            {
                assert(self@.grid[y as int] == self.grid@[y as int]@);
                if self.grid[y][x] == 0 {
                    assert(self@.cell((x, y)) == 0);
                    return false;
                }
                x = x + 1;
            }
            y = y + 1;
        }
        true
    }

    /// The value of cell `(x, y)`; `0` when it is empty.
    pub fn value_at(&self, x: usize, y: usize) -> (r: usize)
        requires
            self.wf(),
            x < 9,
            y < 9,
        ensures
            r == self@.cell((x, y)),
    {
        assert(self@.grid[y as int] == self.grid@[y as int]@);
        self.grid[y][x]
    }

    /// The candidates of cell `(x, y)`, in ascending order.
    pub fn candidates_at(&self, x: usize, y: usize) -> (r: Vec<usize>)
        requires
            self.wf(),
            x < 9,
            y < 9,
        ensures
            r@.to_set() == self@.cand((x, y)),
            r@.len() == self@.cand((x, y)).len(),
            forall|i: int, j: int| 0 <= i < j < r@.len() ==> r@[i] < r@[j],
    {
        assert(self@.cand((x, y)) == bits_of(self.candidates@[y as int]@[x as int]));
        let r = ones_of(&self.candidates[y][x]);
        proof {
            assert forall|i: int, j: int| 0 <= i < r@.len() && 0 <= j < r@.len() && i != j implies r@[i]
                != r@[j] by {
                if i < j {
                    assert(r@[i] < r@[j]);
                } else {
                    assert(r@[j] < r@[i]);
                }
            }
            r@.unique_seq_to_set();
        }
        r
    }

    /// Takes `value` out of the candidates of every cell that `(x, y)` sees.
    fn remove_candidate_from_rcb(&mut self, value: usize, x: usize, y: usize)
        requires
            old(self).shape(),
            value < 10,
            x < 9,
            y < 9,
        ensures
            final(self).shape(),
            final(self).grid == old(self).grid,
            forall|c: (usize, usize)|
                in_grid(c) ==> #[trigger] final(self)@.cand(c) == if sees((x, y), c) {
                    old(self)@.cand(c).remove(value)
                } else {
                    old(self)@.cand(c)
                },
    {
        let items = index_set_items(&get_rcb_indices(x, y));
        let ghost start = self@;
        let mut k: usize = 0;
        while k < items.len()
            invariant
                self.shape(),
                self.grid == old(self).grid,
                start == old(self)@,
                value < 10,
                items@.to_set() == peer_spec(x, y),
                k <= items@.len(),
                items@.no_duplicates(),
                forall|c: (usize, usize)|
                    in_grid(c) ==> #[trigger] self@.cand(c) == if exists|i: int|
                        0 <= i < k && items@[i] == c {
                        start.cand(c).remove(value)
                    } else {
                        start.cand(c)
                    },
            decreases items@.len() - k,
        {
            let (i, j) = items[k];
            assert(items@.to_set().contains(items@[k as int]));
            assert(in_grid((i, j)));
            let ghost before = self@;
            let ghost bc = self.candidates@;
            self.candidates[j][i].set(value, false);
            proof {
                assert(bits_of(self.candidates@[j as int]@[i as int]) == bits_of(
                    bc[j as int]@[i as int],
                ).remove(value));
                assert forall|c: (usize, usize)| in_grid(c) && c != (i, j) implies #[trigger] self.candidates@[c.1 as int]@[c.0 as int]
                    == bc[c.1 as int]@[c.0 as int] by {
                    if c.1 != j {
                        assert(self.candidates@[c.1 as int] == bc[c.1 as int]);
                    }
                }
                assert forall|c: (usize, usize)| in_grid(c) implies #[trigger] self@.cand(c)
                    == if exists|ii: int| 0 <= ii < k + 1 && items@[ii] == c {
                    start.cand(c).remove(value)
                } else {
                    start.cand(c)
                } by {
                    assert(self@.cand(c) == bits_of(self.candidates@[c.1 as int]@[c.0 as int]));
                    assert(before.cand(c) == bits_of(bc[c.1 as int]@[c.0 as int]));
                    if c == (i, j) {
                        assert(items@[k as int] == c);
                        if exists|ii: int| 0 <= ii < k && items@[ii] == c {
                            let ii = choose|ii: int| 0 <= ii < k && items@[ii] == c;
                            assert(before.cand(c) == start.cand(c).remove(value));
                            assert(self@.cand(c) =~= start.cand(c).remove(value));
                        } else {
                            assert(before.cand(c) == start.cand(c));
                            assert(self@.cand(c) =~= start.cand(c).remove(value));
                        }
                    } else {
                        if exists|ii: int| 0 <= ii < k + 1 && items@[ii] == c {
                            let ii = choose|ii: int| 0 <= ii < k + 1 && items@[ii] == c;
                            assert(ii < k);
                        }
                    }
                }
            }
            k = k + 1;
        }
        proof {
            assert forall|c: (usize, usize)| in_grid(c) implies #[trigger] self@.cand(c)
                == if sees((x, y), c) {
                start.cand(c).remove(value)
            } else {
                start.cand(c)
            } by {
                if sees((x, y), c) {
                    assert(peer_spec(x, y).contains(c));
                    assert(items@.to_set().contains(c));
                } else {
                    if exists|ii: int| 0 <= ii < items@.len() && items@[ii] == c {
                        let ii = choose|ii: int| 0 <= ii < items@.len() && items@[ii] == c;
                        assert(items@.to_set().contains(c));
                    }
                }
            }
        }
    }

    /// Puts `value` in cell `(x, y)`: the cell loses its candidates and
    /// every cell it sees loses `value`.
    pub fn assign_value_to_cell(&mut self, value: usize, x: usize, y: usize)
        requires
            old(self).wf(),
            1 <= value <= 9,
            x < 9,
            y < 9,
        ensures
            final(self).wf(),
            final(self)@.grid == old(self)@.grid.update(
                y as int,
                old(self)@.grid[y as int].update(x as int, value),
            ),
            forall|c: (usize, usize)|
                in_grid(c) ==> #[trigger] final(self)@.cand(c) == if c == (x, y) {
                    Set::<usize>::empty()
                } else if sees((x, y), c) {
                    old(self)@.cand(c).remove(value)
                } else {
                    old(self)@.cand(c)
                },
            old(self)@.consistent() && old(self)@.cell((x, y)) == 0 ==> final(self)@.consistent(),
            old(self)@.cell((x, y)) == 0 ==> empty_cells(final(self)@.grid) == empty_cells(
                old(self)@.grid,
            ).remove((x, y)),
    {
        let ghost start = self@;
        self.remove_candidate_from_rcb(value, x, y);
        let ghost mid = self@;
        let ghost bc = self.candidates@;
        self.candidates[y][x].clear();
        assert(self@.grid[y as int] == self.grid@[y as int]@);
        assert(self@.grid[y as int].len() == 9);
        self.grid[y][x] = value;
        proof {
            assert(self@.grid =~= start.grid.update(y as int, start.grid[y as int].update(x as int, value)));
            assert forall|c: (usize, usize)| in_grid(c) implies #[trigger] self@.cand(c) == if c == (
                x,
                y,
            ) {
                Set::<usize>::empty()
            } else if sees((x, y), c) {
                start.cand(c).remove(value)
            } else {
                start.cand(c)
            } by {
                assert(self@.cand(c) == bits_of(self.candidates@[c.1 as int]@[c.0 as int]));
                assert(mid.cand(c) == bits_of(bc[c.1 as int]@[c.0 as int]));
                if c != (x, y) {
                    if c.1 != y {
                        assert(self.candidates@[c.1 as int] == bc[c.1 as int]);
                    }
                    assert(self.candidates@[c.1 as int]@[c.0 as int] == bc[c.1 as int]@[c.0 as int]);
                }
            }
            assert forall|c: (usize, usize)| in_grid(c) implies {
                &&& (#[trigger] self@.cand(c)).finite()
                &&& self@.cand(c).subset_of(digits())
                &&& (self@.cell(c) != 0 ==> self@.cand(c) == Set::<usize>::empty())
            } by {
                assert(start.cand(c).finite());
                if c != (x, y) {
                    assert(self@.cell(c) == start.cell(c));
                }
            }
            assert forall|yy: int| 0 <= yy < 9 implies #[trigger] self@.grid[yy].len() == 9 by {
                assert(start.grid[yy].len() == 9);
            }
            assert forall|c: (usize, usize)| in_grid(c) implies #[trigger] at(self@.grid, c) <= 9 by {
                assert(at(start.grid, c) <= 9);
            }
            if start.consistent() && start.cell((x, y)) == 0 {
                lemma_assign_consistent(start, self@, value, x, y);
            }
            assert forall|c: (usize, usize)| in_grid(c) && c != (x, y) implies at(self@.grid, c)
                == at(start.grid, c) by {
                if c.1 != y {
                    assert(self@.grid[c.1 as int] == start.grid[c.1 as int]);
                }
            }
            if start.cell((x, y)) == 0 {
                assert(empty_cells(self@.grid) =~= empty_cells(start.grid).remove((x, y)));
            }
        }
    }

    /// An independent copy: same grid, same candidates.
    pub fn copy(&self) -> (r: Puzzle)
        requires
            self.wf(),
        ensures
            r.wf(),
            r@ == self@,
    {
        let mut new_grid: Vec<Vec<usize>> = Vec::new();
        let mut new_candidates: Vec<Vec<FixedBitSet>> = Vec::new();
        let mut y: usize = 0;
        while y < SIZE
            invariant
                self.wf(),
                y <= 9,
                new_grid@.len() == y,
                new_candidates@.len() == y,
                forall|j: int| 0 <= j < y ==> (#[trigger] new_grid@[j])@ == self.grid@[j]@,
                forall|j: int| 0 <= j < y ==> (#[trigger] new_candidates@[j])@.len() == 9,
                forall|j: int, i: int|
                    0 <= j < y && 0 <= i < 9 ==> bits_of(#[trigger] new_candidates@[j]@[i])
                        == bits_of(self.candidates@[j]@[i]) && bits_len(new_candidates@[j]@[i])
                        == 10,
            decreases 9 - y,
        {
            let mut grid_row: Vec<usize> = Vec::new();
            let mut cand_row: Vec<FixedBitSet> = Vec::new();
            let mut x: usize = 0;
            assert(self@.grid[y as int] == self.grid@[y as int]@);
            while x < SIZE
                invariant
                    self.wf(),
                    y < 9,
                    x <= 9,
                    self.grid@[y as int]@.len() == 9,
                    grid_row@.len() == x,
                    cand_row@.len() == x,
                    forall|i: int| 0 <= i < x ==> #[trigger] grid_row@[i] == self.grid@[y as int]@[i],
                    forall|i: int|
                        0 <= i < x ==> bits_of(#[trigger] cand_row@[i]) == bits_of(
                            self.candidates@[y as int]@[i],
                        ) && bits_len(cand_row@[i]) == 10,
                decreases 9 - x,
            {
                grid_row.push(self.grid[y][x]);
                cand_row.push(copy_bits(&self.candidates[y][x]));
                x = x + 1;
            }
            assert(grid_row@ =~= self.grid@[y as int]@);
            new_grid.push(grid_row);
            new_candidates.push(cand_row);
            y = y + 1;
        }
        let r = Puzzle { grid: new_grid, candidates: new_candidates };
        assert(r@.grid =~= self@.grid);
        assert forall|j: int| 0 <= j < 9 implies #[trigger] r@.cands[j] =~= self@.cands[j] by {
            assert(r.candidates@[j]@.len() == 9);
        }
        assert(r@.cands =~= self@.cands);
        r
    }

    /// Whether some empty cell has no candidate left.
    pub fn is_impossible(&self) -> (r: bool)
        requires
            self.wf(),
        ensures
            r == self@.impossible(),
    {
        let mut y: usize = 0;
        while y < SIZE
            invariant
                self.wf(),
                y <= 9,
                forall|c: (usize, usize)|
                    in_grid(c) && c.1 < y && #[trigger] self@.cell(c) == 0 ==> self@.cand(c).len() != 0,
            decreases 9 - y,
        {
            let mut x: usize = 0;
            while x < SIZE
                invariant
                    self.wf(),
                    y < 9,
                    x <= 9,
                    forall|c: (usize, usize)|
                        in_grid(c) && (c.1 < y || (c.1 == y && c.0 < x)) && #[trigger] self@.cell(c)
                            == 0 ==> self@.cand(c).len() != 0,
                decreases 9 - x,
            {
                assert(self@.grid[y as int] == self.grid@[y as int]@);
                assert(self@.cand((x, y)) == bits_of(self.candidates@[y as int]@[x as int]));
                if self.grid[y][x] == 0 && count_bits(&self.candidates[y][x]) == 0 {
                    assert(self@.cell((x, y)) == 0);
                    return true;
                }
                x = x + 1;
            }
            y = y + 1;
        }
        false
    }

    /// The cell to branch on: the first cell (row by row) with exactly two
    /// candidates, else the first of those with the fewest candidates but
    /// at least one; `(0, 0)` when no cell has a candidate.
    pub fn find_cell_with_fewest_candidates(&self) -> (r: (usize, usize))
        requires
            self.wf(),
        ensures
            in_grid(r),
            (exists|c: (usize, usize)| in_grid(c) && #[trigger] self@.cand(c).len() == 2) ==> {
                &&& self@.cand(r).len() == 2
                &&& forall|c: (usize, usize)|
                    in_grid(c) && before(c, r) ==> #[trigger] self@.cand(c).len() != 2
            },
            (forall|c: (usize, usize)| in_grid(c) ==> #[trigger] self@.cand(c).len() != 2) && (exists|
                c: (usize, usize),
            | in_grid(c) && #[trigger] self@.cand(c).len() > 0) ==> {
                &&& self@.cand(r).len() > 0
                &&& forall|c: (usize, usize)|
                    in_grid(c) && #[trigger] self@.cand(c).len() > 0 ==> self@.cand(r).len()
                        <= self@.cand(c).len() && (before(c, r) ==> self@.cand(r).len()
                        < self@.cand(c).len())
            },
            (forall|c: (usize, usize)| in_grid(c) ==> #[trigger] self@.cand(c).len() == 0) ==> r == (
                0usize,
                0usize,
            ),
    {
        let mut min_cands: usize = SIZE + 1;
        let mut min_x: usize = 0;
        let mut min_y: usize = 0;
        let mut y: usize = 0;
        while y < SIZE
            invariant
                self.wf(),
                y <= 9,
                min_x < 9,
                min_y < 9,
                forall|c: (usize, usize)|
                    in_grid(c) && before(c, (0, y)) ==> #[trigger] self@.cand(c).len() != 2,
                min_cands == 10 ==> (min_x, min_y) == (0usize, 0usize) && forall|c: (usize, usize)|
                    in_grid(c) && before(c, (0, y)) ==> #[trigger] self@.cand(c).len() == 0,
                min_cands < 10 ==> {
                    &&& min_cands == self@.cand((min_x, min_y)).len()
                    &&& min_cands > 0
                    &&& before((min_x, min_y), (0, y))
                    &&& forall|c: (usize, usize)|
                        in_grid(c) && before(c, (0, y)) && #[trigger] self@.cand(c).len() > 0
                            ==> min_cands <= self@.cand(c).len() && (before(c, (min_x, min_y))
                            ==> min_cands < self@.cand(c).len())
                },
                min_cands <= 10,
            decreases 9 - y,
        {
            let mut x: usize = 0;
            while x < SIZE
                invariant
                    self.wf(),
                    y < 9,
                    x <= 9,
                    min_x < 9,
                    min_y < 9,
                    forall|c: (usize, usize)|
                        in_grid(c) && before(c, (x, y)) ==> #[trigger] self@.cand(c).len() != 2,
                    min_cands == 10 ==> (min_x, min_y) == (0usize, 0usize) && forall|
                        c: (usize, usize),
                    | in_grid(c) && before(c, (x, y)) ==> #[trigger] self@.cand(c).len() == 0,
                    min_cands < 10 ==> {
                        &&& min_cands == self@.cand((min_x, min_y)).len()
                        &&& min_cands > 0
                        &&& before((min_x, min_y), (x, y))
                        &&& forall|c: (usize, usize)|
                            in_grid(c) && before(c, (x, y)) && #[trigger] self@.cand(c).len() > 0
                                ==> min_cands <= self@.cand(c).len() && (before(c, (min_x, min_y))
                                ==> min_cands < self@.cand(c).len())
                    },
                    min_cands <= 10,
                decreases 9 - x,
            {
                assert(self@.cand((x, y)) == bits_of(self.candidates@[y as int]@[x as int]));
                proof {
                    lemma_digit_set_len(self@.cand((x, y)));
                }
                let length = count_bits(&self.candidates[y][x]);
                if length != 0 {
                    if length == 2 {
                        return (x, y);
                    }
                    if length < min_cands {
                        min_cands = length;
                        min_x = x;
                        min_y = y;
                    }
                }
                x = x + 1;
            }
            y = y + 1;
        }
        (min_x, min_y)
    }

    /// How many cells of `group` list each digit as a candidate.
    pub fn get_candidates_counter(&self, group: &IndexSet) -> (r: Counter<usize>)
        requires
            self.wf(),
            forall|c: (usize, usize)| #[trigger] index_set_of(*group).contains(c) ==> in_grid(c),
        ensures
            forall|v: usize|
                #[trigger] tally_of(r).count(v) == cells_with(self@, index_set_of(*group), v).len(),
    {
        broadcast use Seq::lemma_push_to_set_commute, vstd::seq_lib::seq_to_set_is_finite;

        let items = index_set_items(group);
        let mut counter = new_tally();
        let mut k: usize = 0;
        assert forall|v: usize| #[trigger] cells_with(self@, items@.take(0).to_set(), v) =~= Set::<
            (usize, usize),
        >::empty() by {
            assert(items@.take(0) =~= Seq::<(usize, usize)>::empty());
        }
        while k < items.len()
            invariant
                self.wf(),
                forall|c: (usize, usize)| #[trigger] index_set_of(*group).contains(c) ==> in_grid(c),
                items@.to_set() == index_set_of(*group),
                items@.no_duplicates(),
                k <= items@.len(),
                forall|v: usize|
                    #[trigger] tally_of(counter).count(v) == cells_with(
                        self@,
                        items@.take(k as int).to_set(),
                        v,
                    ).len(),
            decreases items@.len() - k,
        {
            let (x, y) = items[k];
            assert(items@.to_set().contains(items@[k as int]));
            assert(in_grid((x, y)));
            assert(self@.cand((x, y)) == bits_of(self.candidates@[y as int]@[x as int]));
            let ones = ones_of(&self.candidates[y][x]);
            let ghost before = tally_of(counter);
            tally_update(&mut counter, &ones);
            proof {
                let e = (x, y);
                let prev = items@.take(k as int);
                assert(items@.take(k + 1) =~= prev.push(e));
                prev.lemma_push_to_set_commute(e);
                assert(!prev.to_set().contains(e)) by {
                    if prev.contains(e) {
                        let i = choose|i: int| 0 <= i < prev.len() && prev[i] == e;
                        assert(items@[i] == items@[k as int]);
                    }
                }
                assert(ones@.no_duplicates()) by {
                    assert forall|i: int, j: int|
                        0 <= i < ones@.len() && 0 <= j < ones@.len() && i != j implies ones@[i]
                        != ones@[j] by {
                        if i < j {
                            assert(ones@[i] < ones@[j]);
                        } else {
                            assert(ones@[j] < ones@[i]);
                        }
                    }
                }
                ones@.lemma_multiset_has_no_duplicates();
                assert forall|v: usize|
                    #[trigger] tally_of(counter).count(v) == cells_with(
                        self@,
                        items@.take(k + 1).to_set(),
                        v,
                    ).len() by {
                    let s0 = cells_with(self@, prev.to_set(), v);
                    let s1 = cells_with(self@, prev.push(e).to_set(), v);
                    vstd::seq_lib::to_multiset_contains(ones@, v);
                    if self@.cand(e).contains(v) {
                        assert(ones@.to_set().contains(v));
                        assert(ones@.to_multiset().count(v) == 1);
                        assert(s1 =~= s0.insert(e));
                    } else {
                        assert(!ones@.contains(v));
                        assert(ones@.to_multiset().count(v) == 0);
                        assert(s1 =~= s0);
                    }
                }
            }
            k = k + 1;
        }
        assert(items@.take(items@.len() as int) =~= items@);
        counter
    }

    /// The cells of `group` that list `value` as a candidate.
    pub fn get_candidates_indices_by_value(&self, value: usize, group: &IndexSet) -> (r: IndexSet)
        requires
            self.wf(),
            forall|c: (usize, usize)| #[trigger] index_set_of(*group).contains(c) ==> in_grid(c),
        ensures
            index_set_of(r) == cells_with(self@, index_set_of(*group), value),
    {
        broadcast use Seq::lemma_push_to_set_commute;

        let items = index_set_items(group);
        let mut result = new_index_set();
        let mut k: usize = 0;
        assert(items@.take(0) =~= Seq::<(usize, usize)>::empty());
        assert(cells_with(self@, items@.take(0).to_set(), value) =~= Set::<(usize, usize)>::empty());
        while k < items.len()
            invariant
                self.wf(),
                forall|c: (usize, usize)| #[trigger] index_set_of(*group).contains(c) ==> in_grid(c),
                items@.to_set() == index_set_of(*group),
                k <= items@.len(),
                index_set_of(result) == cells_with(self@, items@.take(k as int).to_set(), value),
            decreases items@.len() - k,
        {
            let (x, y) = items[k];
            assert(items@.to_set().contains(items@[k as int]));
            assert(in_grid((x, y)));
            assert(self@.cand((x, y)) == bits_of(self.candidates@[y as int]@[x as int]));
            assert(items@.take(k + 1) =~= items@.take(k as int).push((x, y)));
            proof {
                items@.take(k as int).lemma_push_to_set_commute((x, y));
            }
            if self.candidates[y][x].contains(value) {
                index_set_insert(&mut result, (x, y));
            }
            k = k + 1;
            assert(index_set_of(result) =~= cells_with(self@, items@.take(k as int).to_set(), value));
        }
        assert(items@.take(items@.len() as int) =~= items@);
        result
    }

    /// For each group, the values its cells hold, as a bit set.
    fn get_values_by_group_indices(&self, group_indices: Vec<IndexSet>) -> (r: Vec<FixedBitSet>)
        requires
            self.wf(),
            forall|k: int, c: (usize, usize)|
                0 <= k < group_indices@.len() && #[trigger] index_set_of(group_indices@[k]).contains(c)
                    ==> in_grid(c),
        ensures
            r@.len() == group_indices@.len(),
            forall|k: int|
                0 <= k < r@.len() ==> bits_of(#[trigger] r@[k]) == group_values(
                    self@.grid,
                    index_set_of(group_indices@[k]),
                ) && bits_of(r@[k]).finite(),
    {
        let mut result: Vec<FixedBitSet> = Vec::new();
        let mut k: usize = 0;
        while k < group_indices.len()
            invariant
                self.wf(),
                forall|k: int, c: (usize, usize)|
                    0 <= k < group_indices@.len() && #[trigger] index_set_of(
                        group_indices@[k],
                    ).contains(c) ==> in_grid(c),
                k <= group_indices@.len(),
                result@.len() == k,
                forall|i: int|
                    0 <= i < k ==> bits_of(#[trigger] result@[i]) == group_values(
                        self@.grid,
                        index_set_of(group_indices@[i]),
                    ) && bits_of(result@[i]).finite(),
            decreases group_indices@.len() - k,
        {
            let ghost gk = group_indices@[k as int];
            assert forall|c: (usize, usize)| #[trigger] index_set_of(gk).contains(c) implies in_grid(c) by {
                assert(index_set_of(group_indices@[k as int]).contains(c));
            }
            result.push(Puzzle::group_value_bits(&self.grid, &group_indices[k]));
            k = k + 1;
        }
        result
    }

    /// The values of each row, top to bottom.
    fn get_all_rows(&self) -> (r: Vec<FixedBitSet>)
        requires
            self.wf(),
        ensures
            r@.len() == 9,
            forall|k: int|
                0 <= k < 9 ==> bits_of(#[trigger] r@[k]) == group_values(self@.grid, group_spec(k))
                    && bits_of(r@[k]).finite(),
    {
        self.get_values_by_group_indices(get_all_row_indices())
    }

    /// The values of each column, left to right.
    fn get_all_columns(&self) -> (r: Vec<FixedBitSet>)
        requires
            self.wf(),
        ensures
            r@.len() == 9,
            forall|k: int|
                0 <= k < 9 ==> bits_of(#[trigger] r@[k]) == group_values(
                    self@.grid,
                    group_spec(k + 9),
                ) && bits_of(r@[k]).finite(),
    {
        self.get_values_by_group_indices(get_all_column_indices())
    }

    /// The values of each box, left to right and then top to bottom.
    fn get_all_boxes(&self) -> (r: Vec<FixedBitSet>)
        requires
            self.wf(),
        ensures
            r@.len() == 9,
            forall|k: int|
                0 <= k < 9 ==> bits_of(#[trigger] r@[k]) == group_values(
                    self@.grid,
                    group_spec(k + 18),
                ) && bits_of(r@[k]).finite(),
    {
        self.get_values_by_group_indices(get_all_box_indices())
    }

    /// Whether every row, column and box holds the digits `1..=9`, each once.
    pub fn validate_solution(&self) -> (r: bool)
        requires
            self.wf(),
        ensures
            r == valid_solution(self@.grid),
    {
        let mut all_groups = self.get_all_rows();
        let mut columns = self.get_all_columns();
        let mut boxes = self.get_all_boxes();
        let ghost (r0, c0, b0) = (all_groups@, columns@, boxes@);
        all_groups.append(&mut columns);
        all_groups.append(&mut boxes);
        assert forall|k: int| 0 <= k < 27 implies bits_of(#[trigger] all_groups@[k]) == group_values(
            self@.grid,
            group_spec(k),
        ) && bits_of(all_groups@[k]).finite() by {
            if k < 9 {
                assert(all_groups@[k] == r0[k]);
            } else if k < 18 {
                assert(all_groups@[k] == c0[k - 9]);
            } else {
                assert(all_groups@[k] == b0[k - 18]);
            }
        }
        let mut k: usize = 0;
        while k < all_groups.len()
            invariant
                self.wf(),
                all_groups@.len() == 27,
                k <= 27,
                forall|k: int|
                    0 <= k < 27 ==> bits_of(#[trigger] all_groups@[k]) == group_values(
                        self@.grid,
                        group_spec(k),
                    ) && bits_of(all_groups@[k]).finite(),
                forall|i: int| 0 <= i < k ==> #[trigger] group_values(self@.grid, group_spec(i)) == digits(),
            decreases 27 - k,
        {
            let ghost gv = group_values(self@.grid, group_spec(k as int));
            proof {
                assert(bits_of(all_groups@[k as int]) == gv);
                assert forall|d: usize| gv.contains(d) implies d <= 9 by {
                    let p = choose|p: (usize, usize)| #[trigger] group_spec(k as int).contains(p) && at(self@.grid, p) == d;
                    lemma_group_in_grid(k as int, p);
                }
                lemma_full_digit_set(gv);
            }
            if count_bits(&all_groups[k]) != SIZE || all_groups[k].contains(0) {
                return false;
            }
            k = k + 1;
        }
        true
    }

} // impl Puzzle

/// The cells of `g` that list `v` as a candidate.
pub open spec fn cells_with(s: PuzzleView, g: Set<(usize, usize)>, v: usize) -> Set<(usize, usize)> {
    g.filter(|c: (usize, usize)| s.cand(c).contains(v))
}

/// The cells of a group lie in the grid.
pub proof fn lemma_group_in_grid(k: int, c: (usize, usize))
    requires
        0 <= k < 27,
        group_spec(k).contains(c),
    ensures
        in_grid(c),
{
}

/// A finite set of values up to nine holds the digits `1..=9` exactly when
/// it has nine members and no zero.
proof fn lemma_full_digit_set(s: Set<usize>)
    requires
        s.finite(),
        forall|d: usize| s.contains(d) ==> d <= 9,
    ensures
        (s.len() == 9 && !s.contains(0)) <==> s == digits(),
{
    lemma_digits_len();
    if s.len() == 9 && !s.contains(0) {
        assert(s.subset_of(digits()));
        if !(s =~= digits()) {
            let d = choose|d: usize| s.contains(d) != digits().contains(d);
            assert(s.subset_of(digits().remove(d)));
            vstd::set_lib::lemma_len_subset(s, digits().remove(d));
            assert(false);
        }
    }
}

/// There are nine digits.
pub proof fn lemma_digits_len()
    ensures
        digits().finite(),
        digits().len() == 9,
{
    let s = Set::<usize>::empty().insert(1).insert(2).insert(3).insert(4).insert(5).insert(6).insert(
        7,
    ).insert(8).insert(9);
    assert(digits() =~= s);
}

/// A set of digits has at most nine members.
pub proof fn lemma_digit_set_len(s: Set<usize>)
    requires
        s.subset_of(digits()),
    ensures
        s.finite(),
        s.len() <= 9,
{
    lemma_digits_len();
    vstd::set_lib::lemma_len_subset(s, digits());
}

/// Cell `a` comes before cell `b` when read row by row.
pub open spec fn before(a: (usize, usize), b: (usize, usize)) -> bool {
    a.1 < b.1 || (a.1 == b.1 && a.0 < b.0)
}

/// Filling an empty cell of a consistent state and taking its digit from
/// the candidates of the cells it sees gives a consistent state.
proof fn lemma_assign_consistent(s: PuzzleView, t: PuzzleView, value: usize, x: usize, y: usize)
    requires
        s.wf(),
        s.consistent(),
        x < 9,
        y < 9,
        1 <= value <= 9,
        s.cell((x, y)) == 0,
        grid_wf(t.grid),
        t.grid == s.grid.update(y as int, s.grid[y as int].update(x as int, value)),
        forall|c: (usize, usize)|
            in_grid(c) ==> #[trigger] t.cand(c) == if c == (x, y) {
                Set::<usize>::empty()
            } else if sees((x, y), c) {
                s.cand(c).remove(value)
            } else {
                s.cand(c)
            },
    ensures
        t.consistent(),
{
    assert forall|c: (usize, usize)| in_grid(c) && t.cell(c) == 0 implies #[trigger] t.cand(c)
        == open_digits(t.grid, c) by {
        assert(c != (x, y));
        assert forall|p: (usize, usize)| in_grid(p) && p != (x, y) implies at(t.grid, p) == at(
            s.grid,
            p,
        ) by {
            if p.1 != y {
                assert(t.grid[p.1 as int] == s.grid[p.1 as int]);
            }
        }
        assert(at(t.grid, (x, y)) == value);
        assert(s.cell(c) == 0);
        assert(s.cand(c) == open_digits(s.grid, c));
        if sees((x, y), c) {
            assert(peer_spec(c.0, c.1).contains((x, y)));
            assert forall|d: usize| digits().contains(d) implies (peer_values(t.grid, c).contains(d)
                <==> (peer_values(s.grid, c).contains(d) || d == value)) by {
                if peer_values(s.grid, c).contains(d) {
                    let p = choose|p: (usize, usize)| #[trigger] peer_spec(c.0, c.1).contains(p) && at(s.grid, p) == d;
                    assert(p != (x, y));
                    assert(peer_spec(c.0, c.1).contains(p) && at(t.grid, p) == d);
                }
                if peer_values(t.grid, c).contains(d) && d != value {
                    let p = choose|p: (usize, usize)| #[trigger] peer_spec(c.0, c.1).contains(p) && at(t.grid, p) == d;
                    assert(p != (x, y));
                    assert(peer_spec(c.0, c.1).contains(p) && at(s.grid, p) == d);
                }
            }
            assert(t.cand(c) =~= open_digits(t.grid, c));
        } else {
            assert(!peer_spec(c.0, c.1).contains((x, y)));
            assert forall|d: usize| peer_values(t.grid, c).contains(d) <==> peer_values(s.grid, c).contains(d) by {
                if peer_values(s.grid, c).contains(d) {
                    let p = choose|p: (usize, usize)| #[trigger] peer_spec(c.0, c.1).contains(p) && at(s.grid, p) == d;
                    assert(peer_spec(c.0, c.1).contains(p) && at(t.grid, p) == d);
                }
                if peer_values(t.grid, c).contains(d) {
                    let p = choose|p: (usize, usize)| #[trigger] peer_spec(c.0, c.1).contains(p) && at(t.grid, p) == d;
                    assert(peer_spec(c.0, c.1).contains(p) && at(s.grid, p) == d);
                }
            }
            assert(t.cand(c) =~= open_digits(t.grid, c));
        }
    }
}

} // verus!

verus! {

/// A full 9×9 grid in which every row, column and box holds `1..=9`.
pub open spec fn full_valid(h: Seq<Seq<usize>>) -> bool {
    grid_wf(h) && valid_solution(h)
}

/// State `s` agrees with the full grid `h`: each filled cell holds the
/// digit of `h`, each empty cell lists it as a candidate.
pub open spec fn agrees(s: PuzzleView, h: Seq<Seq<usize>>) -> bool {
    forall|c: (usize, usize)|
        in_grid(c) ==> if #[trigger] s.cell(c) != 0 {
            at(h, c) == s.cell(c)
        } else {
            s.cand(c).contains(at(h, c))
        }
}

/// The cells of a finite set hold at most as many values as there are cells.
pub proof fn lemma_values_len(h: Seq<Seq<usize>>, g: Set<(usize, usize)>)
    requires
        g.finite(),
    ensures
        group_values(h, g).finite(),
        group_values(h, g).len() <= g.len(),
    decreases g.len(),
{
    if g.len() == 0 {
        assert(g =~= Set::<(usize, usize)>::empty());
        assert(group_values(h, g) =~= Set::<usize>::empty());
    } else {
        let a = g.choose();
        assert(g.contains(a));
        let rest = g.remove(a);
        lemma_values_len(h, rest);
        assert(group_values(h, g) =~= group_values(h, rest).insert(at(h, a))) by {
            assert forall|d: usize| group_values(h, g).contains(d) implies group_values(h, rest).insert(
                at(h, a),
            ).contains(d) by {
                let p = choose|p: (usize, usize)| #[trigger] g.contains(p) && at(h, p) == d;
                if p != a {
                    assert(rest.contains(p));
                }
            }
            assert forall|d: usize| group_values(h, rest).insert(at(h, a)).contains(d) implies group_values(
                h,
                g,
            ).contains(d) by {
                if d != at(h, a) {
                    let p = choose|p: (usize, usize)| #[trigger] rest.contains(p) && at(h, p) == d;
                    assert(g.contains(p));
                } else {
                    assert(g.contains(a));
                }
            }
        }
    }
}

/// In a full valid grid every cell holds a digit.
pub proof fn lemma_solution_digit(h: Seq<Seq<usize>>, c: (usize, usize))
    requires
        full_valid(h),
        in_grid(c),
    ensures
        1 <= at(h, c) <= 9,
{
    lemma_groups_cover(c);
    assert(group_values(h, group_spec(c.1 as int)) == digits());
    assert(group_values(h, group_spec(c.1 as int)).contains(at(h, c)));
}

/// In a full valid grid two cells that see each other hold different digits.
pub proof fn lemma_solution_distinct(h: Seq<Seq<usize>>, a: (usize, usize), b: (usize, usize))
    requires
        full_valid(h),
        in_grid(a),
        in_grid(b),
        a != b,
        sees(a, b),
    ensures
        at(h, a) != at(h, b),
{
    lemma_sees_group(a, b);
    let k = choose|k: int| 0 <= k < 27 && #[trigger] group_spec(k).contains(a) && group_spec(k).contains(b);
    let g = group_spec(k);
    lemma_group_len(k);
    lemma_digits_len();
    assert(group_values(h, g) == digits());
    if at(h, a) == at(h, b) {
        let rest = g.remove(b);
        assert(group_values(h, g) =~= group_values(h, rest)) by {
            assert forall|d: usize| group_values(h, g).contains(d) implies group_values(h, rest).contains(d) by {
                let p = choose|p: (usize, usize)| #[trigger] g.contains(p) && at(h, p) == d;
                if p == b {
                    assert(rest.contains(a));
                } else {
                    assert(rest.contains(p));
                }
            }
        }
        lemma_values_len(h, rest);
    }
}

/// A consistent state agrees with every full valid grid that keeps its digits.
pub proof fn lemma_initial_agrees(s: PuzzleView, h: Seq<Seq<usize>>)
    requires
        s.wf(),
        s.consistent(),
        full_valid(h),
        extends(s.grid, h),
    ensures
        agrees(s, h),
{
    assert forall|c: (usize, usize)| in_grid(c) implies if #[trigger] s.cell(c) != 0 {
        at(h, c) == s.cell(c)
    } else {
        s.cand(c).contains(at(h, c))
    } by {
        if s.cell(c) == 0 {
            lemma_solution_digit(h, c);
            assert(s.cand(c) == open_digits(s.grid, c));
            if peer_values(s.grid, c).contains(at(h, c)) {
                let p = choose|p: (usize, usize)| #[trigger] peer_spec(c.0, c.1).contains(p) && at(s.grid, p) == at(h, c);
                assert(at(h, p) == at(s.grid, p));
                lemma_solution_distinct(h, c, p);
            }
        }
    }
}

/// Filling an empty cell with the digit of an agreeing grid keeps the
/// agreement.
pub proof fn lemma_assign_agrees(
    s: PuzzleView,
    t: PuzzleView,
    h: Seq<Seq<usize>>,
    value: usize,
    x: usize,
    y: usize,
)
    requires
        s.wf(),
        agrees(s, h),
        full_valid(h),
        x < 9,
        y < 9,
        s.cell((x, y)) == 0,
        at(h, (x, y)) == value,
        t.grid == s.grid.update(y as int, s.grid[y as int].update(x as int, value)),
        forall|c: (usize, usize)|
            in_grid(c) ==> #[trigger] t.cand(c) == if c == (x, y) {
                Set::<usize>::empty()
            } else if sees((x, y), c) {
                s.cand(c).remove(value)
            } else {
                s.cand(c)
            },
    ensures
        agrees(t, h),
{
    assert forall|c: (usize, usize)| in_grid(c) implies if #[trigger] t.cell(c) != 0 {
        at(h, c) == t.cell(c)
    } else {
        t.cand(c).contains(at(h, c))
    } by {
        if c != (x, y) {
            if c.1 != y {
                assert(t.grid[c.1 as int] == s.grid[c.1 as int]);
            }
            assert(t.cell(c) == s.cell(c));
            assert(s.cell(c) != 0 || s.cand(c).contains(at(h, c)));
            if s.cell(c) == 0 && sees((x, y), c) {
                lemma_solution_distinct(h, (x, y), c);
            }
        } else {
            assert(t.cell(c) == value);
            lemma_solution_digit(h, c);
        }
    }
}

/// A full state that agrees with a full valid grid is that grid, so it is
/// valid.
pub proof fn lemma_agrees_solved(s: PuzzleView, h: Seq<Seq<usize>>)
    requires
        s.wf(),
        s.solved(),
        agrees(s, h),
        full_valid(h),
    ensures
        valid_solution(s.grid),
{
    assert forall|k: int| 0 <= k < 27 implies #[trigger] group_values(s.grid, group_spec(k)) == digits() by {
        lemma_group_len(k);
        assert forall|c: (usize, usize)| #[trigger] group_spec(k).contains(c) implies at(s.grid, c) == at(h, c) by {
            assert(s.cell(c) != 0);
        }
        assert(group_values(s.grid, group_spec(k)) =~= group_values(h, group_spec(k)));
    }
}

/// An impossible state agrees with no full valid grid.
pub proof fn lemma_impossible_agrees_none(s: PuzzleView, h: Seq<Seq<usize>>)
    requires
        s.wf(),
        s.impossible(),
    ensures
        !agrees(s, h),
{
    let c = choose|c: (usize, usize)| in_grid(c) && #[trigger] s.cell(c) == 0 && s.cand(c).len() == 0;
    if s.cand(c).contains(at(h, c)) {
        vstd::set_lib::lemma_set_empty_equivalency_len(s.cand(c));
    }
}

} // verus!
