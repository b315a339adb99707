//! The grid model and the geometry of rows, columns and subgrids.

use vstd::prelude::*;

verus! {

/// The grid as a sequence of rows.
pub open spec fn view(g: &Vec<Vec<i32>>) -> Seq<Seq<i32>> {
    g@.map_values(|row: Vec<i32>| row@)
}

/// Nine rows of nine cells, each cell in `0..=9`.
pub open spec fn well_formed(s: Seq<Seq<i32>>) -> bool {
    &&& s.len() == 9
    &&& forall|r: int| 0 <= r < 9 ==> #[trigger] s[r].len() == 9
    &&& forall|r: int, c: int| 0 <= r < 9 && 0 <= c < 9 ==> 0 <= #[trigger] s[r][c] <= 9
}

/// Every cell holds a value in `1..=9`.
pub open spec fn full(s: Seq<Seq<i32>>) -> bool {
    forall|r: int, c: int| 0 <= r < 9 && 0 <= c < 9 ==> 1 <= #[trigger] s[r][c] <= 9
}

pub open spec fn row_has(s: Seq<Seq<i32>>, r: int, v: i32) -> bool {
    exists|c: int| 0 <= c < 9 && #[trigger] s[r][c] == v
}

pub open spec fn col_has(s: Seq<Seq<i32>>, c: int, v: i32) -> bool {
    exists|r: int| 0 <= r < 9 && #[trigger] s[r][c] == v
}

/// The subgrid in row band `br` and column band `bc` holds `v`.
pub open spec fn box_has(s: Seq<Seq<i32>>, br: int, bc: int, v: i32) -> bool {
    exists|i: int, j: int| 0 <= i < 3 && 0 <= j < 3 && #[trigger] s[3 * br + i][3 * bc + j] == v
}

/// Every row, column and subgrid holds each of `1..=9`.
pub open spec fn all_units_complete(s: Seq<Seq<i32>>) -> bool {
    &&& forall|k: int, v: i32| 0 <= k < 9 && 1 <= v <= 9 ==> #[trigger] row_has(s, k, v)
    &&& forall|k: int, v: i32| 0 <= k < 9 && 1 <= v <= 9 ==> #[trigger] col_has(s, k, v)
    &&& forall|br: int, bc: int, v: i32| 0 <= br < 3 && 0 <= bc < 3 && 1 <= v <= 9 ==> #[trigger] box_has(s, br, bc, v)
}

/// A solved grid: no empty cell, and every row, column and subgrid holds
/// each of `1..=9`.
pub open spec fn is_solved(s: Seq<Seq<i32>>) -> bool {
    &&& well_formed(s)
    &&& full(s)
    &&& all_units_complete(s)
}

/// `t` keeps every filled cell of `s`.
pub open spec fn extends(s: Seq<Seq<i32>>, t: Seq<Seq<i32>>) -> bool {
    forall|r: int, c: int| 0 <= r < 9 && 0 <= c < 9 && #[trigger] s[r][c] != 0 ==> t[r][c] == s[r][c]
}

/// Some solved grid keeps every filled cell of `s`.
pub open spec fn solvable(s: Seq<Seq<i32>>) -> bool {
    exists|t: Seq<Seq<i32>>| is_solved(t) && #[trigger] extends(s, t)
}

/// How many of the first `n` cells, in row-major order, are empty.
pub open spec fn zeros_before(s: Seq<Seq<i32>>, n: int) -> int
    decreases n,
{
    if n <= 0 {
        0
    } else {
        zeros_before(s, n - 1) + if s[(n - 1) / 9][(n - 1) % 9] == 0 { 1int } else { 0int }
    }
}

/// How many cells of the grid are empty.
pub open spec fn empty_count(s: Seq<Seq<i32>>) -> int {
    zeros_before(s, 81)
}

/// At most `n` of the first `n` cells are empty.
pub proof fn lemma_zeros_before_bound(s: Seq<Seq<i32>>, n: int)
    requires
        0 <= n,
    ensures
        0 <= zeros_before(s, n) <= n,
    decreases n,
{
    if n > 0 {
        lemma_zeros_before_bound(s, n - 1);
    }
}

/// A grid with no empty cell has an empty count of zero.
pub proof fn lemma_full_has_no_empty(s: Seq<Seq<i32>>, n: int)
    requires
        full(s),
        0 <= n <= 81,
    ensures
        zeros_before(s, n) == 0,
    decreases n,
{
    if n > 0 {
        lemma_full_has_no_empty(s, n - 1);
        assert(1 <= s[(n - 1) / 9][(n - 1) % 9]);
    }
}

/// Emptying a filled cell raises the count of empty cells by one.
pub proof fn lemma_clear_cell_count(s: Seq<Seq<i32>>, r: int, c: int, n: int)
    requires
        well_formed(s),
        0 <= r < 9,
        0 <= c < 9,
        s[r][c] != 0,
        0 <= n <= 81,
    ensures
        zeros_before(s.update(r, s[r].update(c, 0)), n) == zeros_before(s, n) + if n > 9 * r + c { 1int } else { 0int },
    decreases n,
{
    if n > 0 {
        lemma_clear_cell_count(s, r, c, n - 1);
    }
}

pub open spec fn column_seq(s: Seq<Seq<i32>>, c: int) -> Seq<i32> {
    Seq::new(9, |r: int| s[r][c])
}

/// The cells of rows `r1..r2` and columns `c1..c2`, row by row.
pub open spec fn subgrid_seq(s: Seq<Seq<i32>>, r1: int, r2: int, c1: int, c2: int) -> Seq<i32> {
    Seq::new(((r2 - r1) * (c2 - c1)) as nat, |k: int| s[r1 + k / (c2 - c1)][c1 + k % (c2 - c1)])
}

/// The nine cells of the subgrid that holds row `r`, column `c`.
pub open spec fn box_of(s: Seq<Seq<i32>>, r: int, c: int) -> Seq<i32> {
    Seq::new(9, |k: int| s[r / 3 * 3 + k / 3][c / 3 * 3 + k % 3])
}

/// Position of a cell in row-major order.
pub open spec fn rank(p: (usize, usize)) -> int {
    p.1 * 9 + p.0
}

/// Each row of the view is the view of the row vector.
pub proof fn lemma_rows(g: &Vec<Vec<i32>>)
    requires
        well_formed(view(g)),
    ensures
        g@.len() == 9,
        forall|r: int| 0 <= r < 9 ==> (#[trigger] g@[r])@ == view(g)[r] && g@[r]@.len() == 9,
{
    assert forall|r: int| 0 <= r < 9 implies (#[trigger] g@[r])@ == view(g)[r] && g@[r]@.len() == 9 by {
        assert(view(g)[r] == g@[r]@);
    }
}

/// Writes `v` into row `r`, column `c`.
pub fn set_cell(g: &mut Vec<Vec<i32>>, r: usize, c: usize, v: i32)
    requires
        r < old(g)@.len(),
        c < old(g)@[r as int]@.len(),
    ensures
        view(final(g)) == view(old(g)).update(r as int, view(old(g))[r as int].update(c as int, v)),
        final(g)@.len() == old(g)@.len(),
        forall|i: int| 0 <= i < old(g)@.len() ==> (#[trigger] final(g)@[i])@.len() == old(g)@[i]@.len(),
{
    let mut row = g[r].clone();
    row.set(c, v);
    g.set(r, row);
    assert(view(g) =~= view(old(g)).update(r as int, view(old(g))[r as int].update(c as int, v)));
    assert forall|i: int| 0 <= i < old(g)@.len() implies (#[trigger] g@[i])@.len() == old(g)@[i]@.len() by {
        assert(view(g)[i] == g@[i]@);
        assert(view(old(g))[i] == old(g)@[i]@);
    }
}

/// The cells of row `row_idx`, left to right.
pub fn get_row(sudoku: &Vec<Vec<i32>>, row_idx: i32) -> (row: Vec<i32>)
    requires
        well_formed(view(sudoku)),
        0 <= row_idx < 9,
    ensures
        row@ == view(sudoku)[row_idx as int],
{
    proof {
        lemma_rows(sudoku);
    }
    let mut row: Vec<i32> = Vec::new();
    let n = sudoku.len();
    let r = row_idx as usize;
    for i in 0..n
        invariant
            n == 9,
            well_formed(view(sudoku)),
            r == row_idx,
            r < 9,
            row@ == view(sudoku)[r as int].subrange(0, i as int),
    {
        row.push(sudoku[r][i]);
        assert(row@ =~= view(sudoku)[r as int].subrange(0, i + 1));
    }
    assert(row@ =~= view(sudoku)[r as int]);
    row
}

/// The cells of column `column_idx`, top to bottom.
pub fn get_column(sudoku: &Vec<Vec<i32>>, column_idx: i32) -> (column: Vec<i32>)
    requires
        well_formed(view(sudoku)),
        0 <= column_idx < 9,
    ensures
        column@ == column_seq(view(sudoku), column_idx as int),
{
    proof {
        lemma_rows(sudoku);
    }
    let mut column: Vec<i32> = Vec::new();
    let n = sudoku.len();
    let c = column_idx as usize;
    for i in 0..n
        invariant
            n == 9,
            well_formed(view(sudoku)),
            c == column_idx,
            c < 9,
            column@ == column_seq(view(sudoku), c as int).subrange(0, i as int),
    {
        assert(sudoku@[i as int]@ == view(sudoku)[i as int]);
        column.push(sudoku[i][c]);
        assert(column@ =~= column_seq(view(sudoku), c as int).subrange(0, i + 1));
    }
    assert(column@ =~= column_seq(view(sudoku), c as int));
    column
}

proof fn lemma_flat_index(i: int, j: int, w: int)
    requires
        0 <= i,
        0 <= j < w,
    ensures
        (i * w + j) / w == i,
        (i * w + j) % w == j,
{
    vstd::arithmetic::div_mod::lemma_fundamental_div_mod_converse(i * w + j, w, i, j);
}

/// The cells of rows `row_idx1..row_idx2` and columns
/// `column_idx1..column_idx2`, row by row.
pub fn get_subgrid(
    sudoku: &Vec<Vec<i32>>,
    row_idx1: i32,
    row_idx2: i32,
    column_idx1: i32,
    column_idx2: i32,
) -> (subgrid: Vec<i32>)
    requires
        well_formed(view(sudoku)),
        0 <= row_idx1 <= row_idx2 <= 9,
        0 <= column_idx1 <= column_idx2 <= 9,
    ensures
        subgrid@ == subgrid_seq(
            view(sudoku),
            row_idx1 as int,
            row_idx2 as int,
            column_idx1 as int,
            column_idx2 as int,
        ),
{
    proof {
        lemma_rows(sudoku);
    }
    let ghost s = view(sudoku);
    let ghost w = column_idx2 - column_idx1;
    let mut subgrid: Vec<i32> = Vec::new();
    if column_idx1 == column_idx2 {
        assert((row_idx2 - row_idx1) * w == 0) by (nonlinear_arith)
            requires w == 0;
        assert(subgrid@ =~= subgrid_seq(s, row_idx1 as int, row_idx2 as int, column_idx1 as int, column_idx2 as int));
        return subgrid;
    }
    let mut i = row_idx1;
    while i < row_idx2
        invariant
            well_formed(s),
            s == view(sudoku),
            w == column_idx2 - column_idx1,
            0 <= row_idx1 <= row_idx2 <= 9,
            0 <= column_idx1 < column_idx2 <= 9,
            row_idx1 <= i <= row_idx2,
            subgrid@.len() == (i - row_idx1) * w,
            forall|k: int| 0 <= k < subgrid@.len() ==>
                #[trigger] subgrid@[k] == s[row_idx1 + k / w][column_idx1 + k % w],
        decreases row_idx2 - i,
    {
        let mut j = column_idx1;
        while j < column_idx2
            invariant
                well_formed(s),
                s == view(sudoku),
                w == column_idx2 - column_idx1,
                0 <= row_idx1 <= i < row_idx2 <= 9,
                0 <= column_idx1 < column_idx2 <= 9,
                column_idx1 <= j <= column_idx2,
                subgrid@.len() == (i - row_idx1) * w + (j - column_idx1),
                forall|k: int| 0 <= k < subgrid@.len() ==>
                    #[trigger] subgrid@[k] == s[row_idx1 + k / w][column_idx1 + k % w],
            decreases column_idx2 - j,
        {
            proof {
                lemma_flat_index(i - row_idx1, j - column_idx1, w);
                assert(sudoku@[i as int]@ == s[i as int]);
            }
            subgrid.push(sudoku[i as usize][j as usize]);
            j += 1;
        }
        proof {
            assert((i - row_idx1) * w + w == (i + 1 - row_idx1) * w) by (nonlinear_arith);
        }
        i += 1;
    }
    assert(subgrid@ =~= subgrid_seq(s, row_idx1 as int, row_idx2 as int, column_idx1 as int, column_idx2 as int));
    subgrid
}

/// The bounds of the subgrid that holds column `xco`, row `yco`:
/// `(first row, first column, row end, column end)`, the ends exclusive.
pub fn get_subgrid_coor(xco: i32, yco: i32) -> (coor: (i32, i32, i32, i32))
    requires
        0 <= xco < 9,
        0 <= yco < 9,
    ensures
        coor.0 == yco / 3 * 3,
        coor.1 == xco / 3 * 3,
        coor.2 == coor.0 + 3,
        coor.3 == coor.1 + 3,
{
    let row_start = (yco / 3) * 3;
    let column_start = (xco / 3) * 3;
    (row_start, column_start, row_start + 3, column_start + 3)
}

/// The empty cells as `(column, row)` pairs, in row-major order.
pub fn get_all_empty_fields(sudoku: &Vec<Vec<i32>>) -> (empty_spots: Vec<(usize, usize)>)
    requires
        well_formed(view(sudoku)),
    ensures
        forall|a: int, b: int| 0 <= a < b < empty_spots@.len() ==>
            rank(#[trigger] empty_spots@[a]) < rank(#[trigger] empty_spots@[b]),
        forall|p: (usize, usize)| empty_spots@.contains(p) <==>
            (p.0 < 9 && p.1 < 9 && view(sudoku)[p.1 as int][p.0 as int] == 0),
{
    proof {
        lemma_rows(sudoku);
    }
    let ghost s = view(sudoku);
    let mut empty_spots: Vec<(usize, usize)> = Vec::new();
    let n = sudoku.len();
    let m = sudoku[0].len();
    for i in 0..n
        invariant
            n == 9,
            m == 9,
            well_formed(s),
            s == view(sudoku),
            forall|a: int, b: int| 0 <= a < b < empty_spots@.len() ==>
                rank(#[trigger] empty_spots@[a]) < rank(#[trigger] empty_spots@[b]),
            forall|a: int| 0 <= a < empty_spots@.len() ==> rank(#[trigger] empty_spots@[a]) < i * 9,
            forall|p: (usize, usize)| empty_spots@.contains(p) <==>
                (p.0 < 9 && p.1 < i && s[p.1 as int][p.0 as int] == 0),
    {
        for j in 0..m
            invariant
                n == 9,
                m == 9,
                i < 9,
                well_formed(s),
                s == view(sudoku),
                forall|a: int, b: int| 0 <= a < b < empty_spots@.len() ==>
                    rank(#[trigger] empty_spots@[a]) < rank(#[trigger] empty_spots@[b]),
                forall|a: int| 0 <= a < empty_spots@.len() ==> rank(#[trigger] empty_spots@[a]) < i * 9 + j,
                forall|p: (usize, usize)| empty_spots@.contains(p) <==>
                    (p.0 < 9 && p.1 <= i && (p.1 < i || p.0 < j) && s[p.1 as int][p.0 as int] == 0),
        {
            assert(s[i as int] == sudoku@[i as int]@);
            if sudoku[i][j] == 0 {
                let ghost before = empty_spots@;
                empty_spots.push((j, i));
                proof {
                    assert forall|p: (usize, usize)| empty_spots@.contains(p) <==>
                        (p.0 < 9 && p.1 <= i && (p.1 < i || p.0 < j + 1) && s[p.1 as int][p.0 as int] == 0) by {
                        if empty_spots@.contains(p) && p != (j, i) {
                            let k = choose|k: int| 0 <= k < empty_spots@.len() && empty_spots@[k] == p;
                            assert(k < before.len());
                            assert(before[k] == p);
                            assert(before.contains(p));
                        }
                        if p == (j, i) {
                            assert(empty_spots@[before.len() as int] == p);
                        } else if p.0 < 9 && p.1 <= i && (p.1 < i || p.0 < j) && s[p.1 as int][p.0 as int] == 0 {
                            assert(before.contains(p));
                            let k = choose|k: int| 0 <= k < before.len() && before[k] == p;
                            assert(empty_spots@[k] == p);
                        }
                    }
                }
            }
        }
    }
    empty_spots
}

/// A copy of the grid, row by row.
pub fn copy_grid(sudoku: &Vec<Vec<i32>>) -> (copy: Vec<Vec<i32>>)
    ensures
        view(&copy) == view(sudoku),
{
    let mut copy: Vec<Vec<i32>> = Vec::new();
    let n = sudoku.len();
    for i in 0..n
        invariant
            n == sudoku@.len(),
            copy@.len() == i,
            view(&copy) == view(sudoku).subrange(0, i as int),
    {
        let row = sudoku[i].clone();
        assert(row@ == sudoku@[i as int]@);
        let ghost before = view(&copy);
        let ghost old_copy = copy@;
        copy.push(row);
        assert forall|k: int| 0 <= k < i + 1 implies #[trigger] view(&copy)[k] == view(sudoku)[k] by {
            assert(view(&copy)[k] == copy@[k]@);
            if k < i {
                assert(before[k] == old_copy[k]@);
                assert(before[k] == view(sudoku)[k]);
            }
        }
        assert(view(&copy) =~= view(sudoku).subrange(0, i + 1));
    }
    assert(view(&copy) =~= view(sudoku));
    copy
}

} // verus!
