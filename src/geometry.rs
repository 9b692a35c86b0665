//! Cell coordinates and the peer groups of a 9×9 grid: rows, columns and
//! 3×3 boxes. A coordinate is `(x, y)`: column `x`, row `y`.
use crate::sets::{index_set_insert, index_set_of, index_set_union, new_index_set, IndexSet};
use vstd::prelude::*;

verus! {

/// Side of the grid.
pub const SIZE: usize = 9;

/// Side of a box.
pub const BOX_SIZE: usize = 3;

pub open spec fn in_grid(c: (usize, usize)) -> bool {
    c.0 < 9 && c.1 < 9
}

/// Two cells lie in one box.
pub open spec fn same_box(a: (usize, usize), b: (usize, usize)) -> bool {
    a.0 / 3 == b.0 / 3 && a.1 / 3 == b.1 / 3
}

/// Two cells share a row, a column or a box (a cell sees itself).
pub open spec fn sees(a: (usize, usize), b: (usize, usize)) -> bool {
    a.0 == b.0 || a.1 == b.1 || same_box(a, b)
}

pub open spec fn row_spec(y: usize) -> Set<(usize, usize)> {
    Set::new(|c: (usize, usize)| in_grid(c) && c.1 == y)
}

pub open spec fn column_spec(x: usize) -> Set<(usize, usize)> {
    Set::new(|c: (usize, usize)| in_grid(c) && c.0 == x)
}

/// The box that holds cell `(x, y)`.
pub open spec fn box_spec(x: usize, y: usize) -> Set<(usize, usize)> {
    Set::new(|c: (usize, usize)| in_grid(c) && same_box(c, (x, y)))
}

/// The cells that cell `(x, y)` sees, itself included.
pub open spec fn peer_spec(x: usize, y: usize) -> Set<(usize, usize)> {
    Set::new(|c: (usize, usize)| in_grid(c) && sees((x, y), c))
}

/// The `k`-th of the 27 groups: rows `0..9`, then columns, then boxes
/// left to right and top to bottom.
pub open spec fn group_spec(k: int) -> Set<(usize, usize)> {
    if k < 9 {
        row_spec(k as usize)
    } else if k < 18 {
        column_spec((k - 9) as usize)
    } else {
        box_spec((((k - 18) % 3) * 3) as usize, (((k - 18) / 3) * 3) as usize)
    }
}

/// The top-left cell of the box that holds `(x, y)`.
fn get_box_base_index(x: usize, y: usize) -> (r: (usize, usize))
    requires
        x < 9,
        y < 9,
    ensures
        r.0 == x - x % 3,
        r.1 == y - y % 3,
        r.0 % 3 == 0,
        r.1 % 3 == 0,
        r.0 / 3 == x / 3,
        r.1 / 3 == y / 3,
        r.0 + 3 <= 9,
        r.1 + 3 <= 9,
{
    (x - x % BOX_SIZE, y - y % BOX_SIZE)
}

/// The cells of row `y`.
pub fn get_row_indices(y: usize) -> (r: IndexSet)
    requires
        y < 9,
    ensures
        index_set_of(r) == row_spec(y),
{
    let mut s = new_index_set();
    let mut x: usize = 0;
    while x < SIZE
        invariant
            x <= 9,
            y < 9,
            index_set_of(s) == Set::new(|c: (usize, usize)| c.0 < x && c.1 == y),
        decreases 9 - x,
    {
        index_set_insert(&mut s, (x, y));
        x = x + 1;
        assert(index_set_of(s) =~= Set::new(|c: (usize, usize)| c.0 < x && c.1 == y));
    }
    assert(index_set_of(s) =~= row_spec(y));
    s
}

/// The cells of column `x`.
pub fn get_column_indices(x: usize) -> (r: IndexSet)
    requires
        x < 9,
    ensures
        index_set_of(r) == column_spec(x),
{
    let mut s = new_index_set();
    let mut y: usize = 0;
    while y < SIZE
        invariant
            y <= 9,
            x < 9,
            index_set_of(s) == Set::new(|c: (usize, usize)| c.0 == x && c.1 < y),
        decreases 9 - y,
    {
        index_set_insert(&mut s, (x, y));
        y = y + 1;
        assert(index_set_of(s) =~= Set::new(|c: (usize, usize)| c.0 == x && c.1 < y));
    }
    assert(index_set_of(s) =~= column_spec(x));
    s
}

/// The cells of the box that holds `(x, y)`.
pub fn get_box_indices(x: usize, y: usize) -> (r: IndexSet)
    requires
        x < 9,
        y < 9,
    ensures
        index_set_of(r) == box_spec(x, y),
{
    let (bx, by) = get_box_base_index(x, y);
    let mut s = new_index_set();
    let mut i: usize = bx;
    while i < bx + BOX_SIZE
        invariant
            bx <= i <= bx + 3,
            bx + 3 <= 9,
            by + 3 <= 9,
            index_set_of(s) == Set::new(
                |c: (usize, usize)| bx <= c.0 < i && by <= c.1 < by + 3,
            ),
        decreases bx + 3 - i,
    {
        let mut j: usize = by;
        while j < by + BOX_SIZE
            invariant
                bx <= i < bx + 3,
                by <= j <= by + 3,
                bx + 3 <= 9,
                by + 3 <= 9,
                index_set_of(s) == Set::new(
                    |c: (usize, usize)|
                        (bx <= c.0 < i && by <= c.1 < by + 3) || (c.0 == i && by <= c.1 < j),
                ),
            decreases by + 3 - j,
        {
            index_set_insert(&mut s, (i, j));
            j = j + 1;
            assert(index_set_of(s) =~= Set::new(
                |c: (usize, usize)|
                    (bx <= c.0 < i && by <= c.1 < by + 3) || (c.0 == i && by <= c.1 < j),
            ));
        }
        i = i + 1;
        assert(index_set_of(s) =~= Set::new(
            |c: (usize, usize)| bx <= c.0 < i && by <= c.1 < by + 3,
        ));
    }
    assert(index_set_of(s) =~= box_spec(x, y));
    s
}

/// The cells that `(x, y)` sees: its row, its column and its box.
pub fn get_rcb_indices(x: usize, y: usize) -> (r: IndexSet)
    requires
        x < 9,
        y < 9,
    ensures
        index_set_of(r) == peer_spec(x, y),
{
    let row_indices = get_row_indices(y);
    let column_indices = get_column_indices(x);
    let box_indices = get_box_indices(x, y);
    let rowcol = index_set_union(&row_indices, &column_indices);
    let r = index_set_union(&rowcol, &box_indices);
    assert(index_set_of(r) =~= peer_spec(x, y));
    r
}

/// The nine rows, top to bottom.
pub(crate) fn get_all_row_indices() -> (r: Vec<IndexSet>)
    ensures
        r@.len() == 9,
        forall|k: int| 0 <= k < 9 ==> index_set_of(#[trigger] r@[k]) == row_spec(k as usize),
{
    let mut result: Vec<IndexSet> = Vec::new();
    let mut y: usize = 0;
    while y < SIZE
        invariant
            y <= 9,
            result@.len() == y,
            forall|k: int| 0 <= k < y ==> index_set_of(#[trigger] result@[k]) == row_spec(k as usize),
        decreases 9 - y,
    {
        result.push(get_row_indices(y));
        y = y + 1;
    }
    result
}

/// The nine columns, left to right.
pub(crate) fn get_all_column_indices() -> (r: Vec<IndexSet>)
    ensures
        r@.len() == 9,
        forall|k: int| 0 <= k < 9 ==> index_set_of(#[trigger] r@[k]) == column_spec(k as usize),
{
    let mut result: Vec<IndexSet> = Vec::new();
    let mut x: usize = 0;
    while x < SIZE
        invariant
            x <= 9,
            result@.len() == x,
            forall|k: int| 0 <= k < x ==> index_set_of(#[trigger] result@[k]) == column_spec(k as usize),
        decreases 9 - x,
    {
        result.push(get_column_indices(x));
        x = x + 1;
    }
    result
}

/// The nine boxes, left to right and then top to bottom.
pub(crate) fn get_all_box_indices() -> (r: Vec<IndexSet>)
    ensures
        r@.len() == 9,
        forall|k: int|
            0 <= k < 9 ==> index_set_of(#[trigger] r@[k]) == box_spec(
                ((k % 3) * 3) as usize,
                ((k / 3) * 3) as usize,
            ),
{
    let mut result: Vec<IndexSet> = Vec::new();
    let mut by: usize = 0;
    while by < 3
        invariant
            by <= 3,
            result@.len() == 3 * by,
            forall|k: int|
                0 <= k < 3 * by ==> index_set_of(#[trigger] result@[k]) == box_spec(
                    ((k % 3) * 3) as usize,
                    ((k / 3) * 3) as usize,
                ),
        decreases 3 - by,
    {
        let mut bx: usize = 0;
        while bx < 3
            invariant
                by < 3,
                bx <= 3,
                result@.len() == 3 * by + bx,
                forall|k: int|
                    0 <= k < 3 * by + bx ==> index_set_of(#[trigger] result@[k]) == box_spec(
                        ((k % 3) * 3) as usize,
                        ((k / 3) * 3) as usize,
                    ),
            decreases 3 - bx,
        {
            result.push(get_box_indices(bx * BOX_SIZE, by * BOX_SIZE));
            proof {
                let k = 3 * by + bx;
                assert(k % 3 == bx && k / 3 == by);
            }
            bx = bx + 1;
        }
        by = by + 1;
    }
    result
}

/// All 27 groups: the rows, then the columns, then the boxes.
pub fn get_all_group_indices() -> (r: Vec<IndexSet>)
    ensures
        r@.len() == 27,
        forall|k: int| 0 <= k < 27 ==> index_set_of(#[trigger] r@[k]) == group_spec(k),
{
    let mut rows = get_all_row_indices();
    let mut columns = get_all_column_indices();
    let mut boxes = get_all_box_indices();
    let ghost (r0, c0, b0) = (rows@, columns@, boxes@);
    rows.append(&mut columns);
    rows.append(&mut boxes);
    assert forall|k: int| 0 <= k < 27 implies index_set_of(#[trigger] rows@[k]) == group_spec(k) by {
        if k < 9 {
            assert(rows@[k] == r0[k]);
        } else if k < 18 {
            assert(rows@[k] == c0[k - 9]);
        } else {
            assert(rows@[k] == b0[k - 18]);
        }
    }
    rows
}

} // verus!

verus! {

/// The nine cells `(f(0), ..) .. (f(8), ..)` listed by `f`, as a set.
spec fn nine_cells(f: spec_fn(usize) -> (usize, usize)) -> Set<(usize, usize)> {
    Set::empty().insert(f(0)).insert(f(1)).insert(f(2)).insert(f(3)).insert(f(4)).insert(
        f(5),
    ).insert(f(6)).insert(f(7)).insert(f(8))
}

proof fn lemma_nine_cells(f: spec_fn(usize) -> (usize, usize))
    requires
        forall|i: usize, j: usize| i < 9 && j < 9 && i != j ==> #[trigger] f(i) != #[trigger] f(j),
    ensures
        nine_cells(f).finite(),
        nine_cells(f).len() == 9,
{
    assert(f(0) != f(1) && f(0) != f(2) && f(1) != f(2));
    assert(f(3) != f(0) && f(3) != f(1) && f(3) != f(2));
    assert(f(4) != f(0) && f(4) != f(1) && f(4) != f(2) && f(4) != f(3));
    assert(f(5) != f(0) && f(5) != f(1) && f(5) != f(2) && f(5) != f(3) && f(5) != f(4));
    assert(f(6) != f(0) && f(6) != f(1) && f(6) != f(2) && f(6) != f(3) && f(6) != f(4) && f(6)
        != f(5));
    assert(f(7) != f(0) && f(7) != f(1) && f(7) != f(2) && f(7) != f(3) && f(7) != f(4) && f(7)
        != f(5) && f(7) != f(6));
    assert(f(8) != f(0) && f(8) != f(1) && f(8) != f(2) && f(8) != f(3) && f(8) != f(4) && f(8)
        != f(5) && f(8) != f(6) && f(8) != f(7));
}

/// Each of the 27 groups holds exactly nine cells of the grid.
pub proof fn lemma_group_len(k: int)
    requires
        0 <= k < 27,
    ensures
        group_spec(k).finite(),
        group_spec(k).len() == 9,
        forall|c: (usize, usize)| #[trigger] group_spec(k).contains(c) ==> in_grid(c),
{
    if k < 9 {
        let f = |i: usize| (i, k as usize);
        lemma_nine_cells(f);
        assert(group_spec(k) =~= nine_cells(f));
    } else if k < 18 {
        let f = |i: usize| ((k - 9) as usize, i);
        lemma_nine_cells(f);
        assert(group_spec(k) =~= nine_cells(f));
    } else {
        let bx = (((k - 18) % 3) * 3) as usize;
        let by = (((k - 18) / 3) * 3) as usize;
        let f = |i: usize| ((bx + i % 3) as usize, (by + i / 3) as usize);
        lemma_nine_cells(f);
        assert forall|c: (usize, usize)| group_spec(k).contains(c) implies nine_cells(f).contains(c) by {
            let i = ((c.1 - by) * 3 + (c.0 - bx)) as usize;
            assert(f(i) == c);
        }
        assert(group_spec(k) =~= nine_cells(f));
    }
}

/// Every cell lies in exactly one row, one column and one box among the
/// 27 groups: group `y` is its row, `9 + x` its column, and
/// `18 + 3 * (y / 3) + x / 3` its box.
pub proof fn lemma_groups_cover(c: (usize, usize))
    requires
        in_grid(c),
    ensures
        group_spec(c.1 as int).contains(c),
        group_spec(9 + c.0).contains(c),
        group_spec(18 + 3 * (c.1 / 3) + c.0 / 3).contains(c),
        forall|k: int| 0 <= k < 9 && #[trigger] group_spec(k).contains(c) ==> k == c.1,
        forall|k: int| 9 <= k < 18 && #[trigger] group_spec(k).contains(c) ==> k == 9 + c.0,
        forall|k: int|
            18 <= k < 27 && #[trigger] group_spec(k).contains(c) ==> k == 18 + 3 * (c.1 / 3) + c.0
                / 3,
{
    let b = 3 * (c.1 / 3) + c.0 / 3;
    assert(b % 3 == c.0 / 3 && b / 3 == c.1 / 3);
    assert forall|k: int| 18 <= k < 27 && #[trigger] group_spec(k).contains(c) implies k == 18 + b by {
        let j = k - 18;
        assert(j == 3 * (j / 3) + j % 3);
    }
}

/// Two cells that see each other lie together in some group.
pub proof fn lemma_sees_group(a: (usize, usize), b: (usize, usize))
    requires
        in_grid(a),
        in_grid(b),
        sees(a, b),
    ensures
        exists|k: int| 0 <= k < 27 && #[trigger] group_spec(k).contains(a) && group_spec(k).contains(b),
{
    lemma_groups_cover(a);
    lemma_groups_cover(b);
    if a.1 == b.1 {
        assert(group_spec(a.1 as int).contains(a) && group_spec(a.1 as int).contains(b));
    } else if a.0 == b.0 {
        assert(group_spec(9 + a.0).contains(a) && group_spec(9 + a.0).contains(b));
    } else {
        let k = 18 + 3 * (a.1 / 3) + a.0 / 3;
        assert(group_spec(k).contains(a) && group_spec(k).contains(b));
    }
}

/// Two cells of one group see each other.
pub proof fn lemma_group_sees(k: int, a: (usize, usize), b: (usize, usize))
    requires
        0 <= k < 27,
        group_spec(k).contains(a),
        group_spec(k).contains(b),
    ensures
        sees(a, b),
{
}

} // verus!
