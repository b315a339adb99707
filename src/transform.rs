//! Symmetries of a solved grid: swaps of rows or columns inside a band, swaps
//! of whole bands, and rotations by quarter turns.

use crate::outside::generate_random_number;
use crate::grid::{
    box_has, col_has, full, is_solved, lemma_rows, row_has, set_cell, view, well_formed,
    all_units_complete,
};
use vstd::prelude::*;

verus! {

/// Rows `r1` and `r2` exchanged.
pub open spec fn swap_rows(s: Seq<Seq<i32>>, r1: int, r2: int) -> Seq<Seq<i32>> {
    s.update(r1, s[r2]).update(r2, s[r1])
}

/// Columns `c1` and `c2` exchanged.
pub open spec fn swap_cols(s: Seq<Seq<i32>>, c1: int, c2: int) -> Seq<Seq<i32>> {
    Seq::new(s.len(), |r: int| s[r].update(c1, s[r][c2]).update(c2, s[r][c1]))
}

/// Where row `r` goes when bands `b1` and `b2` are exchanged.
pub open spec fn band_image(r: int, b1: int, b2: int) -> int {
    if r / 3 == b1 {
        3 * b2 + r % 3
    } else if r / 3 == b2 {
        3 * b1 + r % 3
    } else {
        r
    }
}

/// Row bands `b1` and `b2` exchanged, row for row.
pub open spec fn swap_row_bands(s: Seq<Seq<i32>>, b1: int, b2: int) -> Seq<Seq<i32>> {
    Seq::new(9, |r: int| s[band_image(r, b1, b2)])
}

/// Column bands `b1` and `b2` exchanged, column for column.
pub open spec fn swap_col_bands(s: Seq<Seq<i32>>, b1: int, b2: int) -> Seq<Seq<i32>> {
    Seq::new(9, |r: int| Seq::new(9, |c: int| s[r][band_image(c, b1, b2)]))
}

/// A quarter turn clockwise.
pub open spec fn rotated_90(s: Seq<Seq<i32>>) -> Seq<Seq<i32>> {
    Seq::new(9, |a: int| Seq::new(9, |b: int| s[8 - b][a]))
}

/// A half turn.
pub open spec fn rotated_180(s: Seq<Seq<i32>>) -> Seq<Seq<i32>> {
    Seq::new(9, |a: int| Seq::new(9, |b: int| s[8 - a][8 - b]))
}

/// Three quarter turns clockwise.
pub open spec fn rotated_270(s: Seq<Seq<i32>>) -> Seq<Seq<i32>> {
    Seq::new(9, |a: int| Seq::new(9, |b: int| s[b][8 - a]))
}

/// `s` with the row swaps of `pairs` applied, first pair first.
pub open spec fn row_swaps(s: Seq<Seq<i32>>, pairs: Seq<(int, int)>) -> Seq<Seq<i32>>
    decreases pairs.len(),
{
    if pairs.len() == 0 {
        s
    } else {
        swap_rows(row_swaps(s, pairs.drop_last()), pairs.last().0, pairs.last().1)
    }
}

/// `s` with the column swaps of `pairs` applied, first pair first.
pub open spec fn col_swaps(s: Seq<Seq<i32>>, pairs: Seq<(int, int)>) -> Seq<Seq<i32>>
    decreases pairs.len(),
{
    if pairs.len() == 0 {
        s
    } else {
        swap_cols(col_swaps(s, pairs.drop_last()), pairs.last().0, pairs.last().1)
    }
}

/// `s` with the row band exchanges of `pairs` applied, first pair first.
pub open spec fn row_band_swaps(s: Seq<Seq<i32>>, pairs: Seq<(int, int)>) -> Seq<Seq<i32>>
    decreases pairs.len(),
{
    if pairs.len() == 0 {
        s
    } else {
        swap_row_bands(row_band_swaps(s, pairs.drop_last()), pairs.last().0, pairs.last().1)
    }
}

/// `s` with the column band exchanges of `pairs` applied, first pair first.
pub open spec fn col_band_swaps(s: Seq<Seq<i32>>, pairs: Seq<(int, int)>) -> Seq<Seq<i32>>
    decreases pairs.len(),
{
    if pairs.len() == 0 {
        s
    } else {
        swap_col_bands(col_band_swaps(s, pairs.drop_last()), pairs.last().0, pairs.last().1)
    }
}

/// Every pair names two distinct indices of `lo..=hi`.
pub open spec fn pairs_within(pairs: Seq<(int, int)>, lo: int, hi: int) -> bool {
    forall|k: int| 0 <= k < pairs.len() ==> {
        &&& lo <= (#[trigger] pairs[k]).0 <= hi
        &&& lo <= pairs[k].1 <= hi
        &&& pairs[k].0 != pairs[k].1
    }
}

/// Swapping two rows of one band keeps a grid solved.
pub proof fn lemma_swap_rows_keeps_solved(s: Seq<Seq<i32>>, r1: int, r2: int)
    requires
        is_solved(s),
        0 <= r1 < 9,
        0 <= r2 < 9,
        r1 / 3 == r2 / 3,
    ensures
        is_solved(swap_rows(s, r1, r2)),
{
    let t = swap_rows(s, r1, r2);
    let sigma = |r: int| if r == r1 { r2 } else if r == r2 { r1 } else { r };
    assert forall|r: int| 0 <= r < 9 implies #[trigger] t[r] == s[sigma(r)] by {}
    assert forall|r: int| 0 <= r < 9 implies #[trigger] t[sigma(r)] == s[r] by {
        assert(t[sigma(r)] == s[sigma(sigma(r))]);
    }
    assert(well_formed(t));
    assert(full(t));
    assert forall|k: int, v: i32| 0 <= k < 9 && 1 <= v <= 9 implies #[trigger] row_has(t, k, v) by {
        assert(row_has(s, sigma(k), v));
        let c = choose|c: int| 0 <= c < 9 && #[trigger] s[sigma(k)][c] == v;
        assert(t[k][c] == v);
    }
    assert forall|k: int, v: i32| 0 <= k < 9 && 1 <= v <= 9 implies #[trigger] col_has(t, k, v) by {
        assert(col_has(s, k, v));
        let r = choose|r: int| 0 <= r < 9 && #[trigger] s[r][k] == v;
        assert(t[sigma(r)][k] == v);
    }
    assert forall|br: int, bc: int, v: i32| 0 <= br < 3 && 0 <= bc < 3 && 1 <= v <= 9 implies #[trigger] box_has(t, br, bc, v) by {
        assert(box_has(s, br, bc, v));
        let (i, j) = choose|i: int, j: int| 0 <= i < 3 && 0 <= j < 3 && #[trigger] s[3 * br + i][3 * bc + j] == v;
        let r = sigma(3 * br + i);
        assert(t[r][3 * bc + j] == v);
        assert(t[3 * br + (r - 3 * br)][3 * bc + j] == v);
    }
    assert(all_units_complete(t));
}

/// Swapping two columns of one band keeps a grid solved.
pub proof fn lemma_swap_cols_keeps_solved(s: Seq<Seq<i32>>, c1: int, c2: int)
    requires
        is_solved(s),
        0 <= c1 < 9,
        0 <= c2 < 9,
        c1 / 3 == c2 / 3,
    ensures
        is_solved(swap_cols(s, c1, c2)),
{
    let t = swap_cols(s, c1, c2);
    let sigma = |c: int| if c == c1 { c2 } else if c == c2 { c1 } else { c };
    assert forall|r: int, c: int| 0 <= r < 9 && 0 <= c < 9 implies #[trigger] t[r][c] == s[r][sigma(c)] by {}
    assert forall|r: int, c: int| 0 <= r < 9 && 0 <= c < 9 implies #[trigger] t[r][sigma(c)] == s[r][c] by {
        assert(t[r][sigma(c)] == s[r][sigma(sigma(c))]);
    }
    assert(well_formed(t));
    assert(full(t));
    assert forall|k: int, v: i32| 0 <= k < 9 && 1 <= v <= 9 implies #[trigger] row_has(t, k, v) by {
        assert(row_has(s, k, v));
        let c = choose|c: int| 0 <= c < 9 && #[trigger] s[k][c] == v;
        assert(t[k][sigma(c)] == v);
    }
    assert forall|k: int, v: i32| 0 <= k < 9 && 1 <= v <= 9 implies #[trigger] col_has(t, k, v) by {
        assert(col_has(s, sigma(k), v));
        let r = choose|r: int| 0 <= r < 9 && #[trigger] s[r][sigma(k)] == v;
        assert(t[r][k] == v);
    }
    assert forall|br: int, bc: int, v: i32| 0 <= br < 3 && 0 <= bc < 3 && 1 <= v <= 9 implies #[trigger] box_has(t, br, bc, v) by {
        assert(box_has(s, br, bc, v));
        let (i, j) = choose|i: int, j: int| 0 <= i < 3 && 0 <= j < 3 && #[trigger] s[3 * br + i][3 * bc + j] == v;
        let c = sigma(3 * bc + j);
        assert(t[3 * br + i][c] == v);
        assert(t[3 * br + i][3 * bc + (c - 3 * bc)] == v);
    }
    assert(all_units_complete(t));
}

/// Exchanging two row bands keeps a grid solved.
pub proof fn lemma_swap_row_bands_keeps_solved(s: Seq<Seq<i32>>, b1: int, b2: int)
    requires
        is_solved(s),
        0 <= b1 < 3,
        0 <= b2 < 3,
    ensures
        is_solved(swap_row_bands(s, b1, b2)),
{
    let t = swap_row_bands(s, b1, b2);
    let bsig = |b: int| if b == b1 { b2 } else if b == b2 { b1 } else { b };
    assert forall|r: int| 0 <= r < 9 implies #[trigger] t[r] == s[3 * bsig(r / 3) + r % 3] by {}
    assert forall|r: int| 0 <= r < 9 implies #[trigger] t[3 * bsig(r / 3) + r % 3] == s[r] by {
        let q = 3 * bsig(r / 3) + r % 3;
        assert(q / 3 == bsig(r / 3) && q % 3 == r % 3);
    }
    assert(well_formed(t));
    assert(full(t));
    assert forall|k: int, v: i32| 0 <= k < 9 && 1 <= v <= 9 implies #[trigger] row_has(t, k, v) by {
        let q = 3 * bsig(k / 3) + k % 3;
        assert(row_has(s, q, v));
        let c = choose|c: int| 0 <= c < 9 && #[trigger] s[q][c] == v;
        assert(t[k][c] == v);
    }
    assert forall|k: int, v: i32| 0 <= k < 9 && 1 <= v <= 9 implies #[trigger] col_has(t, k, v) by {
        assert(col_has(s, k, v));
        let r = choose|r: int| 0 <= r < 9 && #[trigger] s[r][k] == v;
        assert(t[3 * bsig(r / 3) + r % 3][k] == v);
    }
    assert forall|br: int, bc: int, v: i32| 0 <= br < 3 && 0 <= bc < 3 && 1 <= v <= 9 implies #[trigger] box_has(t, br, bc, v) by {
        assert(box_has(s, bsig(br), bc, v));
        let (i, j) = choose|i: int, j: int| 0 <= i < 3 && 0 <= j < 3 && #[trigger] s[3 * bsig(br) + i][3 * bc + j] == v;
        assert(t[3 * br + i] == s[3 * bsig(br) + i]);
        assert(t[3 * br + i][3 * bc + j] == v);
    }
    assert(all_units_complete(t));
}

/// Exchanging two column bands keeps a grid solved.
pub proof fn lemma_swap_col_bands_keeps_solved(s: Seq<Seq<i32>>, b1: int, b2: int)
    requires
        is_solved(s),
        0 <= b1 < 3,
        0 <= b2 < 3,
    ensures
        is_solved(swap_col_bands(s, b1, b2)),
{
    let t = swap_col_bands(s, b1, b2);
    let bsig = |b: int| if b == b1 { b2 } else if b == b2 { b1 } else { b };
    assert forall|r: int, c: int| 0 <= r < 9 && 0 <= c < 9 implies #[trigger] t[r][c] == s[r][3 * bsig(c / 3) + c % 3] by {}
    assert forall|r: int, c: int| 0 <= r < 9 && 0 <= c < 9 implies #[trigger] t[r][3 * bsig(c / 3) + c % 3] == s[r][c] by {
        let q = 3 * bsig(c / 3) + c % 3;
        assert(q / 3 == bsig(c / 3) && q % 3 == c % 3);
    }
    assert(well_formed(t));
    assert(full(t));
    assert forall|k: int, v: i32| 0 <= k < 9 && 1 <= v <= 9 implies #[trigger] row_has(t, k, v) by {
        assert(row_has(s, k, v));
        let c = choose|c: int| 0 <= c < 9 && #[trigger] s[k][c] == v;
        assert(t[k][3 * bsig(c / 3) + c % 3] == v);
    }
    assert forall|k: int, v: i32| 0 <= k < 9 && 1 <= v <= 9 implies #[trigger] col_has(t, k, v) by {
        let q = 3 * bsig(k / 3) + k % 3;
        assert(col_has(s, q, v));
        let r = choose|r: int| 0 <= r < 9 && #[trigger] s[r][q] == v;
        assert(t[r][k] == v);
    }
    assert forall|br: int, bc: int, v: i32| 0 <= br < 3 && 0 <= bc < 3 && 1 <= v <= 9 implies #[trigger] box_has(t, br, bc, v) by {
        assert(box_has(s, br, bsig(bc), v));
        let (i, j) = choose|i: int, j: int| 0 <= i < 3 && 0 <= j < 3 && #[trigger] s[3 * br + i][3 * bsig(bc) + j] == v;
        assert(t[3 * br + i][3 * bc + j] == s[3 * br + i][3 * bsig(bc) + j]);
    }
    assert(all_units_complete(t));
}

/// A quarter turn keeps a grid solved.
pub proof fn lemma_rotate_90_keeps_solved(s: Seq<Seq<i32>>)
    requires
        is_solved(s),
    ensures
        is_solved(rotated_90(s)),
{
    let t = rotated_90(s);
    assert(well_formed(t));
    assert(full(t));
    assert forall|k: int, v: i32| 0 <= k < 9 && 1 <= v <= 9 implies #[trigger] row_has(t, k, v) by {
        assert(col_has(s, k, v));
        let r = choose|r: int| 0 <= r < 9 && #[trigger] s[r][k] == v;
        assert(t[k][8 - r] == v);
    }
    assert forall|k: int, v: i32| 0 <= k < 9 && 1 <= v <= 9 implies #[trigger] col_has(t, k, v) by {
        assert(row_has(s, 8 - k, v));
        let c = choose|c: int| 0 <= c < 9 && #[trigger] s[8 - k][c] == v;
        assert(t[c][k] == v);
    }
    assert forall|br: int, bc: int, v: i32| 0 <= br < 3 && 0 <= bc < 3 && 1 <= v <= 9 implies #[trigger] box_has(t, br, bc, v) by {
        assert(box_has(s, 2 - bc, br, v));
        let (i, j) = choose|i: int, j: int| 0 <= i < 3 && 0 <= j < 3 && #[trigger] s[3 * (2 - bc) + i][3 * br + j] == v;
        assert(t[3 * br + j][3 * bc + (2 - i)] == v);
    }
    assert(all_units_complete(t));
}

/// A half turn keeps a grid solved.
pub proof fn lemma_rotate_180_keeps_solved(s: Seq<Seq<i32>>)
    requires
        is_solved(s),
    ensures
        is_solved(rotated_180(s)),
{
    let t = rotated_180(s);
    assert(well_formed(t));
    assert(full(t));
    assert forall|k: int, v: i32| 0 <= k < 9 && 1 <= v <= 9 implies #[trigger] row_has(t, k, v) by {
        assert(row_has(s, 8 - k, v));
        let c = choose|c: int| 0 <= c < 9 && #[trigger] s[8 - k][c] == v;
        assert(t[k][8 - c] == v);
    }
    assert forall|k: int, v: i32| 0 <= k < 9 && 1 <= v <= 9 implies #[trigger] col_has(t, k, v) by {
        assert(col_has(s, 8 - k, v));
        let r = choose|r: int| 0 <= r < 9 && #[trigger] s[r][8 - k] == v;
        assert(t[8 - r][k] == v);
    }
    assert forall|br: int, bc: int, v: i32| 0 <= br < 3 && 0 <= bc < 3 && 1 <= v <= 9 implies #[trigger] box_has(t, br, bc, v) by {
        assert(box_has(s, 2 - br, 2 - bc, v));
        let (i, j) = choose|i: int, j: int| 0 <= i < 3 && 0 <= j < 3 && #[trigger] s[3 * (2 - br) + i][3 * (2 - bc) + j] == v;
        assert(t[3 * br + (2 - i)][3 * bc + (2 - j)] == v);
    }
    assert(all_units_complete(t));
}

/// Three quarter turns keep a grid solved.
pub proof fn lemma_rotate_270_keeps_solved(s: Seq<Seq<i32>>)
    requires
        is_solved(s),
    ensures
        is_solved(rotated_270(s)),
{
    let t = rotated_270(s);
    assert(well_formed(t));
    assert(full(t));
    assert forall|k: int, v: i32| 0 <= k < 9 && 1 <= v <= 9 implies #[trigger] row_has(t, k, v) by {
        assert(col_has(s, 8 - k, v));
        let r = choose|r: int| 0 <= r < 9 && #[trigger] s[r][8 - k] == v;
        assert(t[k][r] == v);
    }
    assert forall|k: int, v: i32| 0 <= k < 9 && 1 <= v <= 9 implies #[trigger] col_has(t, k, v) by {
        assert(row_has(s, k, v));
        let c = choose|c: int| 0 <= c < 9 && #[trigger] s[k][c] == v;
        assert(t[8 - c][k] == v);
    }
    assert forall|br: int, bc: int, v: i32| 0 <= br < 3 && 0 <= bc < 3 && 1 <= v <= 9 implies #[trigger] box_has(t, br, bc, v) by {
        assert(box_has(s, bc, 2 - br, v));
        let (i, j) = choose|i: int, j: int| 0 <= i < 3 && 0 <= j < 3 && #[trigger] s[3 * bc + i][3 * (2 - br) + j] == v;
        assert(t[3 * br + (2 - j)][3 * bc + i] == v);
    }
    assert(all_units_complete(t));
}

/// Writes `numbers` into row `row_index`, the value at position `i` going to
/// column `(i + column_offset) % 9`.
pub fn fill_row(sudoku: Vec<Vec<i32>>, numbers: &Vec<i32>, row_index: usize, column_offset: usize) -> (filled: Vec<Vec<i32>>)
    requires
        well_formed(view(&sudoku)),
        numbers@.len() == 9,
        row_index < 9,
        column_offset < 9,
    ensures
        view(&filled) == view(&sudoku).update(
            row_index as int,
            Seq::new(9, |c: int| numbers@[(c + 9 - column_offset) % 9]),
        ),
{
    let ghost s = view(&sudoku);
    let ghost target = Seq::new(9, |c: int| numbers@[(c + 9 - column_offset) % 9]);
    let mut sudoku = sudoku;
    proof {
        lemma_rows(&sudoku);
    }
    for i in 0..9
        invariant
            numbers@.len() == 9,
            row_index < 9,
            column_offset < 9,
            well_formed(s),
            target == Seq::new(9, |c: int| numbers@[(c + 9 - column_offset) % 9]),
            view(&sudoku).len() == 9,
            forall|r: int| 0 <= r < 9 && r != row_index ==> #[trigger] view(&sudoku)[r] == s[r],
            view(&sudoku)[row_index as int].len() == 9,
            forall|c: int| 0 <= c < 9 ==> #[trigger] view(&sudoku)[row_index as int][c] ==
                if (c + 9 - column_offset) % 9 < i { target[c] } else { s[row_index as int][c] },
    {
        let mut idx = i + column_offset;
        if idx >= 9 {
            idx -= 9;
        }
        assert((idx + 9 - column_offset) % 9 == i);
        assert(target[idx as int] == numbers@[i as int]);
        assert(sudoku@[row_index as int]@ == view(&sudoku)[row_index as int]);
        let ghost before = view(&sudoku);
        set_cell(&mut sudoku, row_index, idx, numbers[i]);
        assert forall|c: int| 0 <= c < 9 implies #[trigger] view(&sudoku)[row_index as int][c] ==
            if (c + 9 - column_offset) % 9 < i + 1 { target[c] } else { s[row_index as int][c] } by {
            if c != idx {
                assert(view(&sudoku)[row_index as int][c] == before[row_index as int][c]);
                assert((c + 9 - column_offset) % 9 != i);
            }
        }
    }
    assert(view(&sudoku) =~= s.update(row_index as int, target)) by {
        assert(view(&sudoku)[row_index as int] =~= target);
    }
    sudoku
}

/// Two distinct values drawn from `lo..hi`.
pub fn generate_two_unique_random_numbers(lo: i32, hi: i32) -> (pair: (usize, usize))
    requires
        0 <= lo,
        lo + 1 < hi,
    ensures
        lo <= pair.0 < hi,
        lo <= pair.1 < hi,
        pair.0 != pair.1,
{
    let num1 = generate_random_number(lo, hi);
    let step = generate_random_number(1, hi - lo);
    let width = (hi as i64) - (lo as i64);
    let first = (num1 as i64) - (lo as i64);
    let second = (first + step as i64) % width;
    assert(second != first) by {
        if first + step < width {
            vstd::arithmetic::div_mod::lemma_fundamental_div_mod_converse(first + step, width as int, 0, first + step);
        } else {
            vstd::arithmetic::div_mod::lemma_fundamental_div_mod_converse(first + step, width as int, 1, first + step - width);
        }
    }
    let num2 = lo as i64 + second;
    (num1 as usize, num2 as usize)
}

/// Exchanges rows `row_idx1` and `row_idx2`.
pub fn flip_row(sudoku: Vec<Vec<i32>>, row_idx1: usize, row_idx2: usize) -> (flipped: Vec<Vec<i32>>)
    requires
        well_formed(view(&sudoku)),
        row_idx1 < 9,
        row_idx2 < 9,
    ensures
        view(&flipped) == swap_rows(view(&sudoku), row_idx1 as int, row_idx2 as int),
{
    let ghost s = view(&sudoku);
    let mut sudoku = sudoku;
    proof {
        lemma_rows(&sudoku);
    }
    let first = sudoku[row_idx1].clone();
    let second = sudoku[row_idx2].clone();
    sudoku.set(row_idx1, second);
    sudoku.set(row_idx2, first);
    assert(view(&sudoku) =~= swap_rows(s, row_idx1 as int, row_idx2 as int));
    sudoku
}

/// Exchanges columns `column_idx1` and `column_idx2`.
pub fn flip_column(sudoku: Vec<Vec<i32>>, column_idx1: usize, column_idx2: usize) -> (flipped: Vec<Vec<i32>>)
    requires
        well_formed(view(&sudoku)),
        column_idx1 < 9,
        column_idx2 < 9,
    ensures
        view(&flipped) == swap_cols(view(&sudoku), column_idx1 as int, column_idx2 as int),
{
    let ghost s = view(&sudoku);
    let ghost t = swap_cols(s, column_idx1 as int, column_idx2 as int);
    let mut sudoku = sudoku;
    let n = sudoku.len();
    for i in 0..n
        invariant
            n == 9,
            column_idx1 < 9,
            column_idx2 < 9,
            well_formed(s),
            t == swap_cols(s, column_idx1 as int, column_idx2 as int),
            view(&sudoku).len() == 9,
            forall|r: int| 0 <= r < 9 ==> #[trigger] view(&sudoku)[r] == if r < i { t[r] } else { s[r] },
    {
        assert(view(&sudoku)[i as int] == s[i as int]);
        proof {
            lemma_rows(&sudoku);
        }
        let temp = sudoku[i][column_idx1];
        let other = sudoku[i][column_idx2];
        set_cell(&mut sudoku, i, column_idx1, other);
        set_cell(&mut sudoku, i, column_idx2, temp);
        assert(view(&sudoku)[i as int] =~= t[i as int]);
    }
    assert(view(&sudoku) =~= t);
    sudoku
}

/// The cell at row `a`, column `b` after `turns` quarter turns clockwise.
pub open spec fn turned_cell(s: Seq<Seq<i32>>, turns: int, a: int, b: int) -> i32 {
    if turns == 1 {
        s[8 - b][a]
    } else if turns == 2 {
        s[8 - a][8 - b]
    } else {
        s[b][8 - a]
    }
}

/// A rotated copy of the grid, by one, two or three quarter turns.
fn rotated_copy(sudoku: &Vec<Vec<i32>>, turns: usize) -> (rotated: Vec<Vec<i32>>)
    requires
        well_formed(view(sudoku)),
        1 <= turns <= 3,
    ensures
        view(&rotated) == Seq::new(9, |a: int| Seq::new(9, |b: int| turned_cell(view(sudoku), turns as int, a, b))),
{
    let ghost s = view(sudoku);
    let ghost target = Seq::new(9, |a: int| Seq::new(9, |b: int| turned_cell(s, turns as int, a, b)));
    proof {
        lemma_rows(sudoku);
    }
    let mut rotated: Vec<Vec<i32>> = Vec::new();
    for a in 0..9
        invariant
            well_formed(s),
            s == view(sudoku),
            1 <= turns <= 3,
            target == Seq::new(9, |a: int| Seq::new(9, |b: int| turned_cell(s, turns as int, a, b))),
            rotated@.len() == a,
            view(&rotated) == target.subrange(0, a as int),
    {
        let mut row: Vec<i32> = Vec::new();
        for b in 0..9
            invariant
                well_formed(s),
                s == view(sudoku),
                1 <= turns <= 3,
                a < 9,
                target == Seq::new(9, |a: int| Seq::new(9, |b: int| turned_cell(s, turns as int, a, b))),
                row@ == target[a as int].subrange(0, b as int),
        {
            let (r, c) = if turns == 1 {
                (8 - b, a)
            } else if turns == 2 {
                (8 - a, 8 - b)
            } else {
                (b, 8 - a)
            };
            assert(sudoku@[r as int]@ == s[r as int]);
            row.push(sudoku[r][c]);
            assert(row@ =~= target[a as int].subrange(0, b + 1));
        }
        assert(row@ =~= target[a as int]);
        let ghost before = view(&rotated);
        let ghost old_rotated = rotated@;
        rotated.push(row);
        assert forall|k: int| 0 <= k < a + 1 implies #[trigger] view(&rotated)[k] == target[k] by {
            assert(view(&rotated)[k] == rotated@[k]@);
            if k < a {
                assert(before[k] == old_rotated[k]@);
                assert(before[k] == target[k]);
            }
        }
        assert(view(&rotated) =~= target.subrange(0, a + 1));
    }
    assert(view(&rotated) =~= target);
    rotated
}

/// Rotates the grid a quarter turn clockwise.
pub fn rotate_90_degrees(sudoku: &mut Vec<Vec<i32>>)
    requires
        well_formed(view(old(sudoku))),
    ensures
        view(final(sudoku)) == rotated_90(view(old(sudoku))),
{
    let rotated = rotated_copy(sudoku, 1);
    assert forall|a: int| 0 <= a < 9 implies #[trigger] view(&rotated)[a] =~= rotated_90(view(sudoku))[a] by {}
    assert(view(&rotated) =~= rotated_90(view(sudoku)));
    *sudoku = rotated;
}

/// Rotates the grid a half turn.
pub fn rotate_180_degrees(sudoku: &mut Vec<Vec<i32>>)
    requires
        well_formed(view(old(sudoku))),
    ensures
        view(final(sudoku)) == rotated_180(view(old(sudoku))),
{
    let rotated = rotated_copy(sudoku, 2);
    assert forall|a: int| 0 <= a < 9 implies #[trigger] view(&rotated)[a] =~= rotated_180(view(sudoku))[a] by {}
    assert(view(&rotated) =~= rotated_180(view(sudoku)));
    *sudoku = rotated;
}

/// Rotates the grid three quarter turns clockwise.
pub fn rotate_270_degrees(sudoku: &mut Vec<Vec<i32>>)
    requires
        well_formed(view(old(sudoku))),
    ensures
        view(final(sudoku)) == rotated_270(view(old(sudoku))),
{
    let rotated = rotated_copy(sudoku, 3);
    assert forall|a: int| 0 <= a < 9 implies #[trigger] view(&rotated)[a] =~= rotated_270(view(sudoku))[a] by {}
    assert(view(&rotated) =~= rotated_270(view(sudoku)));
    *sudoku = rotated;
}

/// Rotates the grid by 0, 90, 180 or 270 degrees, each drawn with equal chance.
pub fn random_rotate(sudoku: &mut Vec<Vec<i32>>)
    requires
        well_formed(view(old(sudoku))),
    ensures
        view(final(sudoku)) == view(old(sudoku)) || view(final(sudoku)) == rotated_90(view(old(sudoku)))
            || view(final(sudoku)) == rotated_180(view(old(sudoku)))
            || view(final(sudoku)) == rotated_270(view(old(sudoku))),
{
    let rot_num = generate_random_number(0, 4);
    if rot_num == 1 {
        rotate_90_degrees(sudoku);
    } else if rot_num == 2 {
        rotate_180_degrees(sudoku);
    } else if rot_num == 3 {
        rotate_270_degrees(sudoku);
    }
}

/// Makes `number_of_attempts` random swaps of two distinct rows among
/// `row_lower_idx..=row_upper_idx`, which lie in one band.
pub fn flip_rows(sudoku: Vec<Vec<i32>>, number_of_attempts: i32, row_lower_idx: i32, row_upper_idx: i32) -> (flipped: Vec<Vec<i32>>)
    requires
        well_formed(view(&sudoku)),
        0 <= row_lower_idx < row_upper_idx < 9,
        row_lower_idx / 3 == row_upper_idx / 3,
    ensures
        well_formed(view(&flipped)),
        is_solved(view(&sudoku)) ==> is_solved(view(&flipped)),
        exists|pairs: Seq<(int, int)>| {
            &&& pairs.len() == if number_of_attempts > 0 { number_of_attempts as int } else { 0 }
            &&& pairs_within(pairs, row_lower_idx as int, row_upper_idx as int)
            &&& view(&flipped) == #[trigger] row_swaps(view(&sudoku), pairs)
        },
{
    let ghost s = view(&sudoku);
    let mut sudoku = sudoku;
    let ghost mut pairs: Seq<(int, int)> = Seq::empty();
    let mut k: i32 = 0;
    while k < number_of_attempts
        invariant
            0 <= row_lower_idx < row_upper_idx < 9,
            row_lower_idx / 3 == row_upper_idx / 3,
            well_formed(view(&sudoku)),
            is_solved(s) ==> is_solved(view(&sudoku)),
            0 <= k,
            k == 0 || k <= number_of_attempts,
            pairs.len() == k,
            pairs_within(pairs, row_lower_idx as int, row_upper_idx as int),
            view(&sudoku) == row_swaps(s, pairs),
        decreases number_of_attempts - k,
    {
        let (random_num1, random_num2) = generate_two_unique_random_numbers(row_lower_idx, row_upper_idx + 1);
        proof {
            if is_solved(s) {
                lemma_swap_rows_keeps_solved(view(&sudoku), random_num1 as int, random_num2 as int);
            }
        }
        let ghost before = view(&sudoku);
        sudoku = flip_row(sudoku, random_num1, random_num2);
        proof {
            let next = pairs.push((random_num1 as int, random_num2 as int));
            assert(next.drop_last() =~= pairs);
            assert(row_swaps(s, next) == swap_rows(before, random_num1 as int, random_num2 as int));
            pairs = next;
        }
        assert(well_formed(view(&sudoku))) by {
            
        }
        k += 1;
    }
    sudoku
}

/// Makes five random row swaps inside each of the three bands, the top
/// (left) band first.
pub fn flip_all_rows(sudoku: Vec<Vec<i32>>) -> (flipped: Vec<Vec<i32>>)
    requires
        well_formed(view(&sudoku)),
    ensures
        well_formed(view(&flipped)),
        is_solved(view(&sudoku)) ==> is_solved(view(&flipped)),
        exists|p1: Seq<(int, int)>, p2: Seq<(int, int)>, p3: Seq<(int, int)>| {
            &&& p1.len() == 5 && pairs_within(p1, 0, 2)
            &&& p2.len() == 5 && pairs_within(p2, 3, 5)
            &&& p3.len() == 5 && pairs_within(p3, 6, 8)
            &&& view(&flipped) == #[trigger] row_swaps(row_swaps(row_swaps(view(&sudoku), p1), p2), p3)
        },
{
    let ghost s0 = view(&sudoku);
    let mut sudoku = sudoku;
    sudoku = flip_rows(sudoku, 5, 0, 2);
    let ghost s1 = view(&sudoku);
    sudoku = flip_rows(sudoku, 5, 3, 5);
    let ghost s2 = view(&sudoku);
    sudoku = flip_rows(sudoku, 5, 6, 8);
    proof {
        let s3 = view(&sudoku);
        let p1 = choose|p: Seq<(int, int)>| p.len() == 5 && pairs_within(p, 0, 2) && s1 == #[trigger] row_swaps(s0, p);
        let p2 = choose|p: Seq<(int, int)>| p.len() == 5 && pairs_within(p, 3, 5) && s2 == #[trigger] row_swaps(s1, p);
        let p3 = choose|p: Seq<(int, int)>| p.len() == 5 && pairs_within(p, 6, 8) && s3 == #[trigger] row_swaps(s2, p);
        assert(s3 == row_swaps(row_swaps(row_swaps(s0, p1), p2), p3));
    }
    sudoku
}

/// Exchanges row bands `band1` and `band2`, row for row.
pub fn flip_row_band(sudoku: Vec<Vec<i32>>, band1: usize, band2: usize) -> (flipped: Vec<Vec<i32>>)
    requires
        well_formed(view(&sudoku)),
        band1 < 3,
        band2 < 3,
        band1 != band2,
    ensures
        view(&flipped) == swap_row_bands(view(&sudoku), band1 as int, band2 as int),
{
    let ghost s = view(&sudoku);
    let mut sudoku = sudoku;
    for i in 0..3
        invariant
            well_formed(s),
            band1 < 3,
            band2 < 3,
            band1 != band2,
            view(&sudoku) == Seq::new(9, |r: int|
                if (r / 3 == band1 || r / 3 == band2) && r % 3 < i { s[band_image(r, band1 as int, band2 as int)] } else { s[r] }),
    {
        assert(well_formed(view(&sudoku)));
        let ghost before = view(&sudoku);
        sudoku = flip_row(sudoku, 3 * band1 + i, 3 * band2 + i);
        assert(view(&sudoku) =~= Seq::new(9, |r: int|
            if (r / 3 == band1 || r / 3 == band2) && r % 3 < i + 1 { s[band_image(r, band1 as int, band2 as int)] } else { s[r] }));
    }
    assert(view(&sudoku) =~= swap_row_bands(s, band1 as int, band2 as int));
    sudoku
}

/// Makes five random exchanges of two distinct row bands, each band moved
/// whole, index for index.
pub fn flip_grid_rows(sudoku: Vec<Vec<i32>>) -> (flipped: Vec<Vec<i32>>)
    requires
        well_formed(view(&sudoku)),
    ensures
        well_formed(view(&flipped)),
        is_solved(view(&sudoku)) ==> is_solved(view(&flipped)),
        exists|pairs: Seq<(int, int)>| {
            &&& pairs.len() == 5
            &&& pairs_within(pairs, 0, 2)
            &&& view(&flipped) == #[trigger] row_band_swaps(view(&sudoku), pairs)
        },
{
    let ghost s = view(&sudoku);
    let mut sudoku = sudoku;
    let ghost mut pairs: Seq<(int, int)> = Seq::empty();
    for k in 0..5
        invariant
            well_formed(view(&sudoku)),
            is_solved(s) ==> is_solved(view(&sudoku)),
            pairs.len() == k,
            pairs_within(pairs, 0, 2),
            view(&sudoku) == row_band_swaps(s, pairs),
    {
        let (random_num1, random_num2) = generate_two_unique_random_numbers(0, 3);
        proof {
            if is_solved(s) {
                lemma_swap_row_bands_keeps_solved(view(&sudoku), random_num1 as int, random_num2 as int);
            }
        }
        let ghost before = view(&sudoku);
        sudoku = flip_row_band(sudoku, random_num1, random_num2);
        proof {
            let next = pairs.push((random_num1 as int, random_num2 as int));
            assert(next.drop_last() =~= pairs);
            assert(row_band_swaps(s, next) == swap_row_bands(before, random_num1 as int, random_num2 as int));
            pairs = next;
            let now = view(&sudoku);
            assert forall|r: int| 0 <= r < 9 implies #[trigger] now[r].len() == 9 by {}
            assert forall|r: int, c: int| 0 <= r < 9 && 0 <= c < 9 implies 0 <= #[trigger] now[r][c] <= 9 by {
                assert(0 <= before[band_image(r, random_num1 as int, random_num2 as int)][c] <= 9);
            }
        }
    }
    sudoku
}

/// Makes `number_of_attempts` random swaps of two distinct columns among
/// `column_lower_idx..=column_upper_idx`, which lie in one band.
pub fn flip_columns(sudoku: Vec<Vec<i32>>, number_of_attempts: i32, column_lower_idx: i32, column_upper_idx: i32) -> (flipped: Vec<Vec<i32>>)
    requires
        well_formed(view(&sudoku)),
        0 <= column_lower_idx < column_upper_idx < 9,
        column_lower_idx / 3 == column_upper_idx / 3,
    ensures
        well_formed(view(&flipped)),
        is_solved(view(&sudoku)) ==> is_solved(view(&flipped)),
        exists|pairs: Seq<(int, int)>| {
            &&& pairs.len() == if number_of_attempts > 0 { number_of_attempts as int } else { 0 }
            &&& pairs_within(pairs, column_lower_idx as int, column_upper_idx as int)
            &&& view(&flipped) == #[trigger] col_swaps(view(&sudoku), pairs)
        },
{
    let ghost s = view(&sudoku);
    let mut sudoku = sudoku;
    let ghost mut pairs: Seq<(int, int)> = Seq::empty();
    let mut k: i32 = 0;
    while k < number_of_attempts
        invariant
            0 <= column_lower_idx < column_upper_idx < 9,
            column_lower_idx / 3 == column_upper_idx / 3,
            well_formed(view(&sudoku)),
            is_solved(s) ==> is_solved(view(&sudoku)),
            0 <= k,
            k == 0 || k <= number_of_attempts,
            pairs.len() == k,
            pairs_within(pairs, column_lower_idx as int, column_upper_idx as int),
            view(&sudoku) == col_swaps(s, pairs),
        decreases number_of_attempts - k,
    {
        let (random_num1, random_num2) = generate_two_unique_random_numbers(column_lower_idx, column_upper_idx + 1);
        proof {
            if is_solved(s) {
                lemma_swap_cols_keeps_solved(view(&sudoku), random_num1 as int, random_num2 as int);
            }
        }
        let ghost before = view(&sudoku);
        sudoku = flip_column(sudoku, random_num1, random_num2);
        proof {
            let next = pairs.push((random_num1 as int, random_num2 as int));
            assert(next.drop_last() =~= pairs);
            assert(col_swaps(s, next) == swap_cols(before, random_num1 as int, random_num2 as int));
            pairs = next;
        }
        assert(well_formed(view(&sudoku))) by {
            assert forall|r: int| 0 <= r < 9 implies #[trigger] view(&sudoku)[r].len() == 9 by {}
        }
        k += 1;
    }
    sudoku
}

/// Makes five random column swaps inside each of the three bands, the top
/// (left) band first.
pub fn flip_all_columns(sudoku: Vec<Vec<i32>>) -> (flipped: Vec<Vec<i32>>)
    requires
        well_formed(view(&sudoku)),
    ensures
        well_formed(view(&flipped)),
        is_solved(view(&sudoku)) ==> is_solved(view(&flipped)),
        exists|p1: Seq<(int, int)>, p2: Seq<(int, int)>, p3: Seq<(int, int)>| {
            &&& p1.len() == 5 && pairs_within(p1, 0, 2)
            &&& p2.len() == 5 && pairs_within(p2, 3, 5)
            &&& p3.len() == 5 && pairs_within(p3, 6, 8)
            &&& view(&flipped) == #[trigger] col_swaps(col_swaps(col_swaps(view(&sudoku), p1), p2), p3)
        },
{
    let ghost s0 = view(&sudoku);
    let mut sudoku = sudoku;
    sudoku = flip_columns(sudoku, 5, 0, 2);
    let ghost s1 = view(&sudoku);
    sudoku = flip_columns(sudoku, 5, 3, 5);
    let ghost s2 = view(&sudoku);
    sudoku = flip_columns(sudoku, 5, 6, 8);
    proof {
        let s3 = view(&sudoku);
        let p1 = choose|p: Seq<(int, int)>| p.len() == 5 && pairs_within(p, 0, 2) && s1 == #[trigger] col_swaps(s0, p);
        let p2 = choose|p: Seq<(int, int)>| p.len() == 5 && pairs_within(p, 3, 5) && s2 == #[trigger] col_swaps(s1, p);
        let p3 = choose|p: Seq<(int, int)>| p.len() == 5 && pairs_within(p, 6, 8) && s3 == #[trigger] col_swaps(s2, p);
        assert(s3 == col_swaps(col_swaps(col_swaps(s0, p1), p2), p3));
    }
    sudoku
}

/// Exchanges column bands `band1` and `band2`, column for column.
pub fn flip_column_band(sudoku: Vec<Vec<i32>>, band1: usize, band2: usize) -> (flipped: Vec<Vec<i32>>)
    requires
        well_formed(view(&sudoku)),
        band1 < 3,
        band2 < 3,
        band1 != band2,
    ensures
        view(&flipped) == swap_col_bands(view(&sudoku), band1 as int, band2 as int),
{
    let ghost s = view(&sudoku);
    let mut sudoku = sudoku;
    proof {
        let start = Seq::new(9, |r: int| Seq::new(9, |c: int|
            if (c / 3 == band1 || c / 3 == band2) && c % 3 < 0 { s[r][band_image(c, band1 as int, band2 as int)] } else { s[r][c] }));
        assert forall|r: int| 0 <= r < 9 implies #[trigger] s[r] =~= start[r] by {}
        assert(s =~= start);
    }
    for i in 0..3
        invariant
            well_formed(s),
            band1 < 3,
            band2 < 3,
            band1 != band2,
            view(&sudoku) == Seq::new(9, |r: int| Seq::new(9, |c: int|
                if (c / 3 == band1 || c / 3 == band2) && c % 3 < i { s[r][band_image(c, band1 as int, band2 as int)] } else { s[r][c] })),
    {
        assert(well_formed(view(&sudoku)));
        sudoku = flip_column(sudoku, 3 * band1 + i, 3 * band2 + i);
        let ghost next = Seq::new(9, |r: int| Seq::new(9, |c: int|
            if (c / 3 == band1 || c / 3 == band2) && c % 3 < i + 1 { s[r][band_image(c, band1 as int, band2 as int)] } else { s[r][c] }));
        assert forall|r: int| 0 <= r < 9 implies #[trigger] view(&sudoku)[r] =~= next[r] by {}
        assert(view(&sudoku) =~= next);
    }
    let ghost t = swap_col_bands(s, band1 as int, band2 as int);
    assert forall|r: int| 0 <= r < 9 implies #[trigger] view(&sudoku)[r] =~= t[r] by {}
    assert(view(&sudoku) =~= t);
    sudoku
}

/// Makes five random exchanges of two distinct column bands, each band moved
/// whole, index for index.
pub fn flip_grid_columns(sudoku: Vec<Vec<i32>>) -> (flipped: Vec<Vec<i32>>)
    requires
        well_formed(view(&sudoku)),
    ensures
        well_formed(view(&flipped)),
        is_solved(view(&sudoku)) ==> is_solved(view(&flipped)),
        exists|pairs: Seq<(int, int)>| {
            &&& pairs.len() == 5
            &&& pairs_within(pairs, 0, 2)
            &&& view(&flipped) == #[trigger] col_band_swaps(view(&sudoku), pairs)
        },
{
    let ghost s = view(&sudoku);
    let mut sudoku = sudoku;
    let ghost mut pairs: Seq<(int, int)> = Seq::empty();
    for k in 0..5
        invariant
            well_formed(view(&sudoku)),
            is_solved(s) ==> is_solved(view(&sudoku)),
            pairs.len() == k,
            pairs_within(pairs, 0, 2),
            view(&sudoku) == col_band_swaps(s, pairs),
    {
        let (random_num1, random_num2) = generate_two_unique_random_numbers(0, 3);
        proof {
            if is_solved(s) {
                lemma_swap_col_bands_keeps_solved(view(&sudoku), random_num1 as int, random_num2 as int);
            }
        }
        let ghost before = view(&sudoku);
        sudoku = flip_column_band(sudoku, random_num1, random_num2);
        proof {
            let next = pairs.push((random_num1 as int, random_num2 as int));
            assert(next.drop_last() =~= pairs);
            assert(col_band_swaps(s, next) == swap_col_bands(before, random_num1 as int, random_num2 as int));
            pairs = next;
            let now = view(&sudoku);
            assert forall|r: int| 0 <= r < 9 implies #[trigger] now[r].len() == 9 by {}
            assert forall|r: int, c: int| 0 <= r < 9 && 0 <= c < 9 implies 0 <= #[trigger] now[r][c] <= 9 by {
                assert(0 <= before[r][band_image(c, random_num1 as int, random_num2 as int)] <= 9);
            }
        }
    }
    sudoku
}

} // verus!
