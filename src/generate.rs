//! The full-grid generator and the puzzle carver.

use crate::grid::{
    empty_count, extends, lemma_clear_cell_count, lemma_full_has_no_empty, box_has, col_has, copy_grid, full, is_solved, lemma_rows, row_has, set_cell, solvable, view,
    well_formed, all_units_complete,
};
use crate::outside::{generate_random_number, shuffle_values};
use crate::solver::solve_sudoku;
use crate::transform::{
    col_band_swaps, col_swaps, pairs_within, row_band_swaps, row_swaps, rotated_180, rotated_270,
    rotated_90,
    fill_row, flip_all_columns, flip_all_rows, flip_grid_columns, flip_grid_rows,
    lemma_rotate_180_keeps_solved, lemma_rotate_270_keeps_solved, lemma_rotate_90_keeps_solved,
    random_rotate,
};
use vstd::prelude::*;

verus! {

/// The column at which row `r` of the seed grid starts the permutation:
/// 0, 3, 6, 1, 4, 7, 2, 5, 8 for rows 0 to 8.
pub open spec fn seed_offset(r: int) -> int {
    3 * (r % 3) + r / 3
}

/// Position in the permutation of the value at row `r`, column `c` of the
/// seed grid.
pub open spec fn seed_index(r: int, c: int) -> int {
    (c + 9 - seed_offset(r)) % 9
}

/// The seed grid: every row is the permutation `p` shifted right by the
/// row's offset.
pub open spec fn seed_grid(p: Seq<i32>) -> Seq<Seq<i32>> {
    Seq::new(9, |r: int| Seq::new(9, |c: int| p[seed_index(r, c)]))
}

/// `t` is `s` or one of its rotations by quarter turns.
pub open spec fn is_rotation_of(s: Seq<Seq<i32>>, t: Seq<Seq<i32>>) -> bool {
    t == s || t == rotated_90(s) || t == rotated_180(s) || t == rotated_270(s)
}

/// `t` comes from `s` by five row swaps inside each band, band by band from
/// the top, then five column swaps inside each band, five exchanges of row
/// bands and five exchanges of column bands.
pub open spec fn is_band_shuffle_of(s: Seq<Seq<i32>>, t: Seq<Seq<i32>>) -> bool {
    exists|r1: Seq<(int, int)>, r2: Seq<(int, int)>, r3: Seq<(int, int)>,
        c1: Seq<(int, int)>, c2: Seq<(int, int)>, c3: Seq<(int, int)>,
        rb: Seq<(int, int)>, cb: Seq<(int, int)>|
    {
        &&& r1.len() == 5 && pairs_within(r1, 0, 2)
        &&& r2.len() == 5 && pairs_within(r2, 3, 5)
        &&& r3.len() == 5 && pairs_within(r3, 6, 8)
        &&& c1.len() == 5 && pairs_within(c1, 0, 2)
        &&& c2.len() == 5 && pairs_within(c2, 3, 5)
        &&& c3.len() == 5 && pairs_within(c3, 6, 8)
        &&& rb.len() == 5 && pairs_within(rb, 0, 2)
        &&& cb.len() == 5 && pairs_within(cb, 0, 2)
        &&& t == #[trigger] col_band_swaps(row_band_swaps(
            col_swaps(col_swaps(col_swaps(row_swaps(row_swaps(row_swaps(s, r1), r2), r3), c1), c2), c3),
            rb), cb)
    }
}

/// `t` is the seed grid of `p`, shuffled inside bands and then rotated.
pub open spec fn is_generated_from(p: Seq<i32>, t: Seq<Seq<i32>>) -> bool {
    exists|u: Seq<Seq<i32>>| #[trigger] is_band_shuffle_of(seed_grid(p), u) && is_rotation_of(u, t)
}

/// `p` holds each of `1..=9` once.
pub open spec fn is_digit_permutation(p: Seq<i32>) -> bool {
    &&& p.len() == 9
    &&& forall|t: int| 0 <= t < 9 ==> 1 <= #[trigger] p[t] <= 9
    &&& forall|v: i32| 1 <= v <= 9 ==> #[trigger] p.contains(v)
}

proof fn lemma_row_witness(t: int, k: int)
    requires
        0 <= t < 9,
        0 <= k < 9,
    ensures
        seed_index(k, (t + seed_offset(k)) % 9) == t,
{
}

proof fn lemma_col_witness(t: int, k: int)
    requires
        0 <= t < 9,
        0 <= k < 9,
    ensures
        seed_index(3 * ((k + 9 - t) % 9 % 3) + (k + 9 - t) % 9 / 3, k) == t,
{
}

proof fn lemma_box_witness(t: int, br: int, bc: int)
    requires
        0 <= t < 9,
        0 <= br < 3,
        0 <= bc < 3,
    ensures
        seed_index(3 * br + (bc - (t + br - (t + br) % 3) / 3 + 6) % 3, 3 * bc + (t + br) % 3) == t,
{
}

/// The seed grid built from any permutation of `1..=9` is solved.
pub proof fn lemma_seed_grid_solved(p: Seq<i32>)
    requires
        is_digit_permutation(p),
    ensures
        is_solved(seed_grid(p)),
{
    let g = seed_grid(p);
    assert forall|r: int, c: int| 0 <= r < 9 && 0 <= c < 9 implies 1 <= #[trigger] g[r][c] <= 9 by {
        assert(0 <= seed_index(r, c) < 9);
    }
    assert(well_formed(g));
    assert(full(g));
    assert forall|k: int, v: i32| 0 <= k < 9 && 1 <= v <= 9 implies #[trigger] row_has(g, k, v) by {
        assert(p.contains(v));
        let t = choose|t: int| 0 <= t < 9 && p[t] == v;
        let c = (t + seed_offset(k)) % 9;
        lemma_row_witness(t, k);
        assert(g[k][c] == v);
    }
    assert forall|k: int, v: i32| 0 <= k < 9 && 1 <= v <= 9 implies #[trigger] col_has(g, k, v) by {
        assert(p.contains(v));
        let t = choose|t: int| 0 <= t < 9 && p[t] == v;
        let r = 3 * ((k + 9 - t) % 9 % 3) + (k + 9 - t) % 9 / 3;
        lemma_col_witness(t, k);
        assert(g[r][k] == v);
    }
    assert forall|br: int, bc: int, v: i32| 0 <= br < 3 && 0 <= bc < 3 && 1 <= v <= 9 implies #[trigger] box_has(g, br, bc, v) by {
        assert(p.contains(v));
        let t = choose|t: int| 0 <= t < 9 && p[t] == v;
        let j = (t + br) % 3;
        let m = (t + br - j) / 3;
        let i = (bc - m + 6) % 3;
        lemma_box_witness(t, br, bc);
        assert(g[3 * br + i][3 * bc + j] == v);
    }
    assert(all_units_complete(g));
}

/// A grid of nine rows of nine empty cells.
pub fn empty_grid() -> (grid: Vec<Vec<i32>>)
    ensures
        view(&grid) == Seq::new(9, |r: int| Seq::new(9, |c: int| 0i32)),
{
    let ghost target = Seq::new(9, |r: int| Seq::new(9, |c: int| 0i32));
    let mut grid: Vec<Vec<i32>> = Vec::new();
    for r in 0..9
        invariant
            target == Seq::new(9, |r: int| Seq::new(9, |c: int| 0i32)),
            grid@.len() == r,
            view(&grid) == target.subrange(0, r as int),
    {
        let mut row: Vec<i32> = Vec::new();
        for c in 0..9
            invariant
                row@ == Seq::new(c as nat, |c: int| 0i32),
        {
            row.push(0);
            assert(row@ =~= Seq::new((c + 1) as nat, |c: int| 0i32));
        }
        assert(row@ =~= target[r as int]);
        let ghost before = view(&grid);
        let ghost old_grid = grid@;
        grid.push(row);
        assert forall|k: int| 0 <= k < r + 1 implies #[trigger] view(&grid)[k] == target[k] by {
            assert(view(&grid)[k] == grid@[k]@);
            if k < r {
                assert(before[k] == old_grid[k]@);
            }
        }
        assert(view(&grid) =~= target.subrange(0, r + 1));
    }
    assert(view(&grid) =~= target);
    grid
}

/// Filling a row of a well-formed grid with values of `0..=9` keeps it well
/// formed.
proof fn lemma_fill_keeps_well_formed(s: Seq<Seq<i32>>, p: Seq<i32>, r: int, off: int)
    requires
        well_formed(s),
        p.len() == 9,
        forall|t: int| 0 <= t < 9 ==> 1 <= #[trigger] p[t] <= 9,
        0 <= r < 9,
        0 <= off < 9,
    ensures
        well_formed(s.update(r, Seq::new(9, |c: int| p[(c + 9 - off) % 9]))),
{
    let u = s.update(r, Seq::new(9, |c: int| p[(c + 9 - off) % 9]));
    assert forall|a: int, b: int| 0 <= a < 9 && 0 <= b < 9 implies 0 <= #[trigger] u[a][b] <= 9 by {
        if a == r {
            assert(0 <= (b + 9 - off) % 9 < 9);
        }
    }
}

/// A complete, valid grid: the seed grid of a random permutation of
/// `1..=9`, shuffled by random row and column swaps inside bands, random band
/// swaps, and a random rotation.
pub fn generate_full_sudoku(width: usize, height: usize) -> (sudoku: Vec<Vec<i32>>)
    requires
        width == 9,
        height == 9,
    ensures
        is_solved(view(&sudoku)),
        exists|p: Seq<i32>| is_digit_permutation(p) && #[trigger] is_generated_from(p, view(&sudoku)),
{
    let mut sudoku = empty_grid();
    let mut numbers: Vec<i32> = Vec::new();
    let mut n: i32 = 1;
    while n < 10
        invariant
            1 <= n <= 10,
            numbers@ == Seq::new((n - 1) as nat, |t: int| (t + 1) as i32),
        decreases 10 - n,
    {
        numbers.push(n);
        assert(numbers@ =~= Seq::new(n as nat, |t: int| (t + 1) as i32));
        n += 1;
    }
    let ghost digits = numbers@;
    shuffle_values(&mut numbers);
    let ghost p = numbers@;
    proof {
        digits.to_multiset_ensures();
        p.to_multiset_ensures();
        assert(p.len() == 9);
        assert forall|t: int| 0 <= t < 9 implies 1 <= #[trigger] p[t] <= 9 by {
            assert(p.contains(p[t]));
            assert(p.to_multiset().count(p[t]) > 0);
            assert(digits.contains(p[t]));
        }
        assert forall|v: i32| 1 <= v <= 9 implies #[trigger] p.contains(v) by {
            assert(digits[v - 1] == v);
            assert(digits.contains(v));
            assert(digits.to_multiset().count(v) > 0);
        }
        assert(is_digit_permutation(p));
        assert(well_formed(view(&sudoku)));
    }
    let ghost s0 = view(&sudoku);
    proof { lemma_fill_keeps_well_formed(view(&sudoku), p, 0, 0); }
    sudoku = fill_row(sudoku, &numbers, 0, 0);
    proof { lemma_fill_keeps_well_formed(view(&sudoku), p, 1, 3); }
    sudoku = fill_row(sudoku, &numbers, 1, 3);
    proof { lemma_fill_keeps_well_formed(view(&sudoku), p, 2, 6); }
    sudoku = fill_row(sudoku, &numbers, 2, 6);
    proof { lemma_fill_keeps_well_formed(view(&sudoku), p, 3, 1); }
    sudoku = fill_row(sudoku, &numbers, 3, 1);
    proof { lemma_fill_keeps_well_formed(view(&sudoku), p, 4, 4); }
    sudoku = fill_row(sudoku, &numbers, 4, 4);
    proof { lemma_fill_keeps_well_formed(view(&sudoku), p, 5, 7); }
    sudoku = fill_row(sudoku, &numbers, 5, 7);
    proof { lemma_fill_keeps_well_formed(view(&sudoku), p, 6, 2); }
    sudoku = fill_row(sudoku, &numbers, 6, 2);
    proof { lemma_fill_keeps_well_formed(view(&sudoku), p, 7, 5); }
    sudoku = fill_row(sudoku, &numbers, 7, 5);
    proof { lemma_fill_keeps_well_formed(view(&sudoku), p, 8, 8); }
    sudoku = fill_row(sudoku, &numbers, 8, 8);
    proof {
        let g = seed_grid(p);
        assert forall|r: int| 0 <= r < 9 implies #[trigger] view(&sudoku)[r] =~= g[r] by {}
        assert(view(&sudoku) =~= g);
        lemma_seed_grid_solved(p);
    }
    let ghost g0 = view(&sudoku);
    sudoku = flip_all_rows(sudoku);
    let ghost g1 = view(&sudoku);
    sudoku = flip_all_columns(sudoku);
    let ghost g2 = view(&sudoku);
    sudoku = flip_grid_rows(sudoku);
    let ghost g3 = view(&sudoku);
    sudoku = flip_grid_columns(sudoku);
    let ghost before = view(&sudoku);
    proof {
        let (r1, r2, r3) = choose|a: Seq<(int, int)>, b: Seq<(int, int)>, c: Seq<(int, int)>|
            a.len() == 5 && pairs_within(a, 0, 2) && b.len() == 5 && pairs_within(b, 3, 5)
            && c.len() == 5 && pairs_within(c, 6, 8) && g1 == #[trigger] row_swaps(row_swaps(row_swaps(g0, a), b), c);
        let (c1, c2, c3) = choose|a: Seq<(int, int)>, b: Seq<(int, int)>, c: Seq<(int, int)>|
            a.len() == 5 && pairs_within(a, 0, 2) && b.len() == 5 && pairs_within(b, 3, 5)
            && c.len() == 5 && pairs_within(c, 6, 8) && g2 == #[trigger] col_swaps(col_swaps(col_swaps(g1, a), b), c);
        let rb = choose|a: Seq<(int, int)>| a.len() == 5 && pairs_within(a, 0, 2) && g3 == #[trigger] row_band_swaps(g2, a);
        let cb = choose|a: Seq<(int, int)>| a.len() == 5 && pairs_within(a, 0, 2) && before == #[trigger] col_band_swaps(g3, a);
        assert(before == col_band_swaps(row_band_swaps(
            col_swaps(col_swaps(col_swaps(row_swaps(row_swaps(row_swaps(g0, r1), r2), r3), c1), c2), c3),
            rb), cb));
        assert(is_band_shuffle_of(seed_grid(p), before));
    }
    random_rotate(&mut sudoku);
    proof {
        assert(is_rotation_of(before, view(&sudoku)));
        assert(is_generated_from(p, view(&sudoku)));
        lemma_rotate_90_keeps_solved(before);
        lemma_rotate_180_keeps_solved(before);
        lemma_rotate_270_keeps_solved(before);
    }
    sudoku
}

/// Empties the cell at `row`, `column` if it holds a value and the grid
/// still has a solution without it; otherwise leaves the grid as it was.
/// Returns whether the cell was emptied.
pub fn try_blank_cell(sudoku: &mut Vec<Vec<i32>>, row: usize, column: usize) -> (blanked: bool)
    requires
        well_formed(view(old(sudoku))),
        row < 9,
        column < 9,
    ensures
        blanked == (view(old(sudoku))[row as int][column as int] != 0 && solvable(
            view(old(sudoku)).update(row as int, view(old(sudoku))[row as int].update(column as int, 0)),
        )),
        blanked ==> view(final(sudoku)) == view(old(sudoku)).update(
            row as int,
            view(old(sudoku))[row as int].update(column as int, 0),
        ),
        !blanked ==> view(final(sudoku)) == view(old(sudoku)),
{
    let ghost before = view(sudoku);
    proof {
        lemma_rows(sudoku);
    }
    let old_val = sudoku[row][column];
    if old_val == 0 {
        return false;
    }
    set_cell(sudoku, row, column, 0);
    proof {
        let now = view(sudoku);
        assert forall|r: int| 0 <= r < 9 implies #[trigger] now[r].len() == 9 by {}
        assert forall|r: int, c: int| 0 <= r < 9 && 0 <= c < 9 implies 0 <= #[trigger] now[r][c] <= 9 by {
            assert(0 <= before[r][c] <= 9);
        }
    }
    if solve_sudoku(sudoku) {
        true
    } else {
        proof {
            lemma_rows(sudoku);
        }
        set_cell(sudoku, row, column, old_val);
        proof {
            let now = view(sudoku);
            assert forall|r: int| 0 <= r < 9 implies #[trigger] now[r] =~= before[r] by {}
            assert(now =~= before);
        }
        false
    }
}

/// Empties `num_to_delete` cells of a copy of `filled_sudoku`, one at a time.
/// A target above the number of filled cells is refused at once with `None`.
/// Otherwise a random cell is drawn, and if it holds a value, the value is taken out
/// and kept out only if the solver still solves the grid. Each draw spends
/// one of `max_attempts`; when they run out before the target is met, the
/// result is `None`.
pub fn generate_sudoku_to_solve(filled_sudoku: &Vec<Vec<i32>>, num_to_delete: i32, max_attempts: u32) -> (puzzle: Option<Vec<Vec<i32>>>)
    requires
        well_formed(view(filled_sudoku)),
        0 <= num_to_delete,
    ensures
        puzzle matches Some(t) ==> {
            &&& well_formed(view(&t))
            &&& extends(view(&t), view(filled_sudoku))
            &&& empty_count(view(&t)) == empty_count(view(filled_sudoku)) + num_to_delete
            &&& num_to_delete > 0 ==> solvable(view(&t))
            &&& is_solved(view(filled_sudoku)) ==> empty_count(view(&t)) == num_to_delete && solvable(view(&t))
        },
        num_to_delete > max_attempts ==> puzzle is None,
        num_to_delete > 81 - empty_count(view(filled_sudoku)) ==> puzzle is None,
        num_to_delete == 0 ==> (puzzle matches Some(t) && view(&t) == view(filled_sudoku)),
{
    let ghost f = view(filled_sudoku);
    proof {
        lemma_rows(filled_sudoku);
    }
    let mut zeros: i32 = 0;
    for k in 0..81
        invariant
            well_formed(f),
            f == view(filled_sudoku),
            zeros == crate::grid::zeros_before(f, k as int),
    {
        proof {
            crate::grid::lemma_zeros_before_bound(f, k as int);
        }
        let (r, c) = (k / 9, k % 9);
        assert(filled_sudoku@[r as int]@ == f[r as int]);
        if filled_sudoku[r][c] == 0 {
            zeros += 1;
        }
    }
    proof {
        crate::grid::lemma_zeros_before_bound(f, 81);
    }
    if num_to_delete > 81 - zeros {
        return None;
    }
    let mut sudoku_to_solve = copy_grid(filled_sudoku);
    proof {
        lemma_rows(&sudoku_to_solve);
    }
    let n = sudoku_to_solve.len();
    let m = sudoku_to_solve[0].len();
    let mut num_deleted: i32 = 0;
    let mut attempts_left: u32 = max_attempts;
    while num_deleted < num_to_delete
        invariant
            n == 9,
            m == 9,
            well_formed(f),
            well_formed(view(&sudoku_to_solve)),
            extends(view(&sudoku_to_solve), f),
            empty_count(view(&sudoku_to_solve)) == empty_count(f) + num_deleted,
            0 <= num_deleted <= num_to_delete,
            num_deleted + attempts_left <= max_attempts,
            num_deleted > 0 ==> solvable(view(&sudoku_to_solve)),
            num_deleted == 0 ==> view(&sudoku_to_solve) == f,
        decreases attempts_left,
    {
        if attempts_left == 0 {
            return None;
        }
        attempts_left -= 1;
        let xco = generate_random_number(0, m as i32) as usize;
        let yco = generate_random_number(0, n as i32) as usize;
        proof {
            lemma_rows(&sudoku_to_solve);
        }
        let ghost before = view(&sudoku_to_solve);
        if try_blank_cell(&mut sudoku_to_solve, yco, xco) {
            num_deleted += 1;
            proof {
                lemma_clear_cell_count(before, yco as int, xco as int, 81);
                let now = view(&sudoku_to_solve);
                assert forall|r: int| 0 <= r < 9 implies #[trigger] now[r].len() == 9 by {}
                assert forall|r: int, c: int| 0 <= r < 9 && 0 <= c < 9 implies 0 <= #[trigger] now[r][c] <= 9 by {
                    assert(0 <= before[r][c] <= 9);
                }
                assert forall|r: int, c: int| 0 <= r < 9 && 0 <= c < 9 && #[trigger] now[r][c] != 0 implies f[r][c] == now[r][c] by {
                    assert(before[r][c] == now[r][c]);
                }
            }
        }
    }
    proof {
        if is_solved(f) {
            lemma_carved_puzzle(f, view(&sudoku_to_solve), num_to_delete as int);
        }
        crate::grid::lemma_zeros_before_bound(view(&sudoku_to_solve), 81);
    }
    Some(sudoku_to_solve)
}

/// A puzzle carved from a solved grid has exactly as many empty cells as
/// were asked for, and the grid it was carved from solves it.
pub proof fn lemma_carved_puzzle(filled: Seq<Seq<i32>>, puzzle: Seq<Seq<i32>>, num_to_delete: int)
    requires
        is_solved(filled),
        extends(puzzle, filled),
        empty_count(puzzle) == empty_count(filled) + num_to_delete,
    ensures
        empty_count(puzzle) == num_to_delete,
        solvable(puzzle),
{
    lemma_full_has_no_empty(filled, 81);
    assert(extends(puzzle, filled));
}

} // verus!
