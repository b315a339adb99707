//! Duplicate detection, candidate values and the solved check.

use crate::grid::{
    extends, box_has, box_of, col_has, column_seq, full, get_all_empty_fields, get_column, get_row,
    get_subgrid, get_subgrid_coor, is_solved, lemma_rows, row_has, subgrid_seq, view, well_formed,
    all_units_complete,
};
use crate::outside::integer_sqrt;
use vstd::prelude::*;

verus! {

/// No non-zero value occurs twice in `v`.
pub open spec fn no_dup_nonzero(v: Seq<i32>) -> bool {
    forall|i: int, j: int| 0 <= i < j < v.len() && v[i] != 0 ==> #[trigger] v[i] != #[trigger] v[j]
}

/// No value occurs twice in `v`.
pub open spec fn distinct(v: Seq<i32>) -> bool {
    forall|i: int, j: int| 0 <= i < j < v.len() ==> #[trigger] v[i] != #[trigger] v[j]
}

/// `x` is one of `1..=9` and does not occur in `v`.
pub open spec fn is_missing(v: Seq<i32>, x: i32) -> bool {
    1 <= x <= 9 && !v.contains(x)
}

/// `x` may stand in row `r`, column `c`: it is missing from the cell's row,
/// column and subgrid.
pub open spec fn candidate(s: Seq<Seq<i32>>, r: int, c: int, x: i32) -> bool {
    &&& is_missing(s[r], x)
    &&& is_missing(column_seq(s, c), x)
    &&& is_missing(box_of(s, r, c), x)
}

/// The cell in row `r`, column `c` breaks no rule: its row, column and
/// subgrid hold no repeated non-zero value.
pub open spec fn cell_valid(s: Seq<Seq<i32>>, r: int, c: int) -> bool {
    &&& no_dup_nonzero(s[r])
    &&& no_dup_nonzero(column_seq(s, c))
    &&& no_dup_nonzero(box_of(s, r, c))
}

/// Whether `vec` holds `x`.
pub fn contains_value(vec: &Vec<i32>, x: i32) -> (found: bool)
    ensures
        found == vec@.contains(x),
{
    let n = vec.len();
    for i in 0..n
        invariant
            n == vec@.len(),
            forall|k: int| 0 <= k < i ==> vec@[k] != x,
    {
        if vec[i] == x {
            return true;
        }
    }
    false
}

/// True if no non-zero value occurs twice in `vec`; zero marks an empty cell
/// and is never a duplicate.
pub fn is_vec_valid(vec: &Vec<i32>) -> (valid: bool)
    ensures
        valid == no_dup_nonzero(vec@),
{
    let n = vec.len();
    for i in 0..n
        invariant
            n == vec@.len(),
            forall|a: int, b: int| 0 <= a < i && a < b < n && vec@[a] != 0 ==> #[trigger] vec@[a] != #[trigger] vec@[b],
    {
        if vec[i] != 0 {
            for j in i + 1..n
                invariant
                    n == vec@.len(),
                    i < n,
                    vec@[i as int] != 0,
                    forall|a: int, b: int| 0 <= a < i && a < b < n && vec@[a] != 0 ==> #[trigger] vec@[a] != #[trigger] vec@[b],
                    forall|b: int| i < b < j ==> vec@[i as int] != #[trigger] vec@[b],
            {
                if vec[j] == vec[i] {
                    assert(vec@[i as int] == vec@[j as int]);
                    return false;
                }
            }
        }
    }
    true
}

/// The values of `1..=9` that `vec` does not hold, ascending.
pub fn find_missing_numbers(vec: &Vec<i32>) -> (missing: Vec<i32>)
    ensures
        forall|a: int, b: int| 0 <= a < b < missing@.len() ==> #[trigger] missing@[a] < #[trigger] missing@[b],
        forall|x: i32| missing@.contains(x) <==> is_missing(vec@, x),
        forall|x: i32| 1 <= x <= 9 ==> missing@.contains(x) || vec@.contains(x),
        forall|x: i32| !(missing@.contains(x) && vec@.contains(x)),
{
    let mut missing: Vec<i32> = Vec::new();
    let mut num: i32 = 1;
    while num <= 9
        invariant
            1 <= num <= 10,
            forall|a: int, b: int| 0 <= a < b < missing@.len() ==> #[trigger] missing@[a] < #[trigger] missing@[b],
            forall|a: int| 0 <= a < missing@.len() ==> #[trigger] missing@[a] < num,
            forall|x: i32| missing@.contains(x) <==> (x < num && is_missing(vec@, x)),
        decreases 10 - num,
    {
        let ghost before = missing@;
        if !contains_value(vec, num) {
            missing.push(num);
            proof {
                assert forall|x: i32| missing@.contains(x) <==> (x < num + 1 && is_missing(vec@, x)) by {
                    if x == num {
                        assert(missing@[before.len() as int] == x);
                    } else if missing@.contains(x) {
                        let k = choose|k: int| 0 <= k < missing@.len() && missing@[k] == x;
                        assert(before[k] == x);
                    } else if x < num && is_missing(vec@, x) {
                        let k = choose|k: int| 0 <= k < before.len() && before[k] == x;
                        assert(missing@[k] == x);
                    }
                }
            }
        }
        num += 1;
    }
    missing
}

/// The values that all three vectors hold, each once.
pub fn common_numbers(vec1: &Vec<i32>, vec2: &Vec<i32>, vec3: &Vec<i32>) -> (common: Vec<i32>)
    ensures
        distinct(common@),
        forall|x: i32| common@.contains(x) <==> (vec1@.contains(x) && vec2@.contains(x) && vec3@.contains(x)),
{
    let mut common: Vec<i32> = Vec::new();
    let n = vec1.len();
    for i in 0..n
        invariant
            n == vec1@.len(),
            distinct(common@),
            forall|x: i32| common@.contains(x) <==>
                (vec1@.subrange(0, i as int).contains(x) && vec2@.contains(x) && vec3@.contains(x)),
    {
        let x = vec1[i];
        let ghost before = common@;
        let ghost pre = vec1@.subrange(0, i as int);
        let ghost post = vec1@.subrange(0, i + 1);
        assert(forall|y: i32| before.contains(y) <==>
            (pre.contains(y) && vec2@.contains(y) && vec3@.contains(y)));
        assert forall|y: i32| post.contains(y) <==> (pre.contains(y) || y == x) by {
            if post.contains(y) && y != x {
                let k = choose|k: int| 0 <= k < post.len() && post[k] == y;
                assert(pre[k] == y);
            }
            if y == x {
                assert(post[i as int] == y);
            } else if pre.contains(y) {
                let k = choose|k: int| 0 <= k < pre.len() && pre[k] == y;
                assert(post[k] == y);
            }
        }
        if contains_value(vec2, x) && contains_value(vec3, x) && !contains_value(&common, x) {
            common.push(x);
            proof {
                assert forall|y: i32| common@.contains(y) <==> before.contains(y) || y == x by {
                    if common@.contains(y) && y != x {
                        let k = choose|k: int| 0 <= k < common@.len() && common@[k] == y;
                        assert(before[k] == y);
                    }
                    if y == x {
                        assert(common@[before.len() as int] == y);
                    } else if before.contains(y) {
                        let k = choose|k: int| 0 <= k < before.len() && before[k] == y;
                        assert(common@[k] == y);
                    }
                }
            }
        }
        assert forall|y: i32| common@.contains(y) <==>
            (post.contains(y) && vec2@.contains(y) && vec3@.contains(y)) by {
            assert(post.contains(y) <==> (pre.contains(y) || y == x));
            assert(before.contains(y) <==> (pre.contains(y) && vec2@.contains(y) && vec3@.contains(y)));
        }
    }
    assert(vec1@.subrange(0, n as int) =~= vec1@);
    common
}

/// The subgrid read from the bounds that `get_subgrid_coor` gives is the
/// cell's subgrid.
proof fn lemma_box_bounds(s: Seq<Seq<i32>>, r: int, c: int)
    requires
        0 <= r < 9,
        0 <= c < 9,
    ensures
        subgrid_seq(s, r / 3 * 3, r / 3 * 3 + 3, c / 3 * 3, c / 3 * 3 + 3) == box_of(s, r, c),
{
    let g = subgrid_seq(s, r / 3 * 3, r / 3 * 3 + 3, c / 3 * 3, c / 3 * 3 + 3);
    assert(c / 3 * 3 + 3 - c / 3 * 3 == 3);
    assert(r / 3 * 3 + 3 - r / 3 * 3 == 3);
    assert(g.len() == 9);
    assert(g =~= box_of(s, r, c));
}

/// Nine values that cover `1..=9` are pairwise distinct.
proof fn lemma_covering_nine_distinct(q: Seq<i32>)
    requires
        q.len() == 9,
        forall|x: i32| 1 <= x <= 9 ==> #[trigger] q.contains(x),
    ensures
        q.no_duplicates(),
{
    let digits = Seq::new(9, |k: int| (k + 1) as i32);
    assert(digits.no_duplicates());
    digits.unique_seq_to_set();
    assert forall|x: i32| digits.to_set().contains(x) implies q.to_set().contains(x) by {
        assert(digits.contains(x));
        let k = choose|k: int| 0 <= k < 9 && digits[k] == x;
        assert(q.contains(x));
    }
    vstd::seq_lib::seq_to_set_is_finite(q);
    vstd::set_lib::lemma_len_subset(digits.to_set(), q.to_set());
    q.lemma_cardinality_of_set();
    q.lemma_no_dup_set_cardinality();
}

/// In a solved grid every row, column and subgrid holds nine distinct values.
pub proof fn lemma_solved_units_distinct(t: Seq<Seq<i32>>, r: int, c: int)
    requires
        is_solved(t),
        0 <= r < 9,
        0 <= c < 9,
    ensures
        t[r].no_duplicates(),
        column_seq(t, c).no_duplicates(),
        box_of(t, r, c).no_duplicates(),
{
    assert forall|x: i32| 1 <= x <= 9 implies #[trigger] t[r].contains(x) by {
        assert(row_has(t, r, x));
        let k = choose|k: int| 0 <= k < 9 && #[trigger] t[r][k] == x;
    }
    lemma_covering_nine_distinct(t[r]);
    assert forall|x: i32| 1 <= x <= 9 implies #[trigger] column_seq(t, c).contains(x) by {
        assert(col_has(t, c, x));
        let k = choose|k: int| 0 <= k < 9 && #[trigger] t[k][c] == x;
        assert(column_seq(t, c)[k] == x);
    }
    lemma_covering_nine_distinct(column_seq(t, c));
    let b = box_of(t, r, c);
    assert forall|x: i32| 1 <= x <= 9 implies #[trigger] b.contains(x) by {
        assert(box_has(t, r / 3, c / 3, x));
        let (i, j) = choose|i: int, j: int| 0 <= i < 3 && 0 <= j < 3 && #[trigger] t[3 * (r / 3) + i][3 * (c / 3) + j] == x;
        assert(b[3 * i + j] == x);
    }
    lemma_covering_nine_distinct(b);
}

/// A grid whose filled cells all agree with a solved grid breaks no rule at
/// any cell.
pub proof fn lemma_agreeing_grid_valid(g: Seq<Seq<i32>>, t: Seq<Seq<i32>>, r: int, c: int)
    requires
        well_formed(g),
        is_solved(t),
        extends(g, t),
        0 <= r < 9,
        0 <= c < 9,
    ensures
        cell_valid(g, r, c),
{
    lemma_solved_units_distinct(t, r, c);
    assert forall|i: int, j: int| 0 <= i < j < g[r].len() && g[r][i] != 0 implies #[trigger] g[r][i] != #[trigger] g[r][j] by {
        assert(t[r][i] == g[r][i]);
        if g[r][j] == g[r][i] {
            assert(t[r][j] == g[r][j]);
        }
    }
    let gc = column_seq(g, c);
    let tc = column_seq(t, c);
    assert forall|i: int, j: int| 0 <= i < j < gc.len() && gc[i] != 0 implies #[trigger] gc[i] != #[trigger] gc[j] by {
        assert(t[i][c] == g[i][c]);
        assert(tc[i] == gc[i]);
        if gc[j] == gc[i] {
            assert(t[j][c] == g[j][c]);
            assert(tc[j] == gc[j]);
        }
    }
    let gb = box_of(g, r, c);
    let tb = box_of(t, r, c);
    assert forall|i: int, j: int| 0 <= i < j < gb.len() && gb[i] != 0 implies #[trigger] gb[i] != #[trigger] gb[j] by {
        assert(t[r / 3 * 3 + i / 3][c / 3 * 3 + i % 3] == g[r / 3 * 3 + i / 3][c / 3 * 3 + i % 3]);
        assert(tb[i] == gb[i]);
        if gb[j] == gb[i] {
            assert(t[r / 3 * 3 + j / 3][c / 3 * 3 + j % 3] == g[r / 3 * 3 + j / 3][c / 3 * 3 + j % 3]);
            assert(tb[j] == gb[j]);
        }
    }
}

/// On a grid with every cell empty, each of `1..=9` may stand in any cell.
pub proof fn lemma_empty_grid_candidates(s: Seq<Seq<i32>>, r: int, c: int)
    requires
        s == Seq::new(9, |r: int| Seq::new(9, |c: int| 0i32)),
        0 <= r < 9,
        0 <= c < 9,
    ensures
        forall|x: i32| 1 <= x <= 9 ==> candidate(s, r, c, x),
{
    assert forall|x: i32| 1 <= x <= 9 implies candidate(s, r, c, x) by {
        if s[r].contains(x) {
            let k = choose|k: int| 0 <= k < s[r].len() && s[r][k] == x;
        }
        if column_seq(s, c).contains(x) {
            let k = choose|k: int| 0 <= k < 9 && column_seq(s, c)[k] == x;
        }
        if box_of(s, r, c).contains(x) {
            let k = choose|k: int| 0 <= k < 9 && box_of(s, r, c)[k] == x;
        }
    }
}

/// True if the row, the column and the subgrid of the cell in column `xco`,
/// row `yco` each hold no repeated non-zero value.
pub fn is_loc_valid(sudoku: &Vec<Vec<i32>>, xco: i32, yco: i32) -> (valid: bool)
    requires
        well_formed(view(sudoku)),
        0 <= xco < 9,
        0 <= yco < 9,
    ensures
        valid == cell_valid(view(sudoku), yco as int, xco as int),
{
    let row = get_row(sudoku, yco);
    let column = get_column(sudoku, xco);
    let coor = get_subgrid_coor(xco, yco);
    let subgrid = get_subgrid(sudoku, coor.0, coor.2, coor.1, coor.3);
    proof {
        lemma_box_bounds(view(sudoku), yco as int, xco as int);
    }
    is_vec_valid(&row) && is_vec_valid(&column) && is_vec_valid(&subgrid)
}

/// The values that may stand in the cell in column `xco`, row `yco`: those
/// of `1..=9` missing from its row, its column and its subgrid, each once.
pub fn get_all_missing_numbers(sudoku: &Vec<Vec<i32>>, xco: i32, yco: i32) -> (candidates: Vec<i32>)
    requires
        well_formed(view(sudoku)),
        0 <= xco < 9,
        0 <= yco < 9,
    ensures
        distinct(candidates@),
        forall|x: i32| #[trigger] candidates@.contains(x) <==> candidate(view(sudoku), yco as int, xco as int, x),
{
    let row = get_row(sudoku, yco);
    let column = get_column(sudoku, xco);
    let coor = get_subgrid_coor(xco, yco);
    let subgrid = get_subgrid(sudoku, coor.0, coor.2, coor.1, coor.3);
    proof {
        lemma_box_bounds(view(sudoku), yco as int, xco as int);
    }
    let missing_numbers_column = find_missing_numbers(&column);
    let missing_numbers_row = find_missing_numbers(&row);
    let missing_numbers_subgrid = find_missing_numbers(&subgrid);
    common_numbers(&missing_numbers_row, &missing_numbers_column, &missing_numbers_subgrid)
}

/// Whether `vec` holds every value of `1..=9`.
pub fn contains_all_digits(vec: &Vec<i32>) -> (all: bool)
    ensures
        all == forall|x: i32| 1 <= x <= 9 ==> #[trigger] vec@.contains(x),
{
    let mut num: i32 = 1;
    while num <= 9
        invariant
            1 <= num <= 10,
            forall|x: i32| 1 <= x < num ==> #[trigger] vec@.contains(x),
        decreases 10 - num,
    {
        if !contains_value(vec, num) {
            return false;
        }
        num += 1;
    }
    true
}

/// True iff the grid has no empty cell and every row, column and subgrid
/// holds each of `1..=9`.
pub fn check_if_sudoku_solved(sudoku: &Vec<Vec<i32>>) -> (solved: bool)
    requires
        well_formed(view(sudoku)),
    ensures
        solved == is_solved(view(sudoku)),
{
    let ghost s = view(sudoku);
    proof {
        lemma_rows(sudoku);
    }
    let empty_loc = get_all_empty_fields(sudoku);
    if empty_loc.len() > 0 {
        let p = empty_loc[0];
        assert(empty_loc@.contains(p));
        return false;
    }
    assert(full(s)) by {
        assert forall|r: int, c: int| 0 <= r < 9 && 0 <= c < 9 implies 1 <= #[trigger] s[r][c] <= 9 by {
            if s[r][c] == 0 {
                assert(empty_loc@.contains((c as usize, r as usize)));
            }
        }
    }
    let n = sudoku.len();
    let m = sudoku[0].len();
    for i in 0..n
        invariant
            n == 9,
            well_formed(s),
            s == view(sudoku),
            forall|k: int, v: i32| 0 <= k < i && 1 <= v <= 9 ==> #[trigger] row_has(s, k, v),
    {
        let row = get_row(sudoku, i as i32);
        if !contains_all_digits(&row) {
            proof {
                let v = choose|v: i32| 1 <= v <= 9 && !row@.contains(v);
                if row_has(s, i as int, v) {
                    let c = choose|c: int| 0 <= c < 9 && #[trigger] s[i as int][c] == v;
                    assert(row@[c] == v);
                }
                assert(!all_units_complete(s));
            }
            return false;
        }
        assert forall|v: i32| 1 <= v <= 9 implies #[trigger] row_has(s, i as int, v) by {
            assert(row@.contains(v));
            let c = choose|c: int| 0 <= c < row@.len() && row@[c] == v;
            assert(s[i as int][c] == v);
        }
    }
    for i in 0..m
        invariant
            m == 9,
            well_formed(s),
            s == view(sudoku),
            forall|k: int, v: i32| 0 <= k < 9 && 1 <= v <= 9 ==> #[trigger] row_has(s, k, v),
            forall|k: int, v: i32| 0 <= k < i && 1 <= v <= 9 ==> #[trigger] col_has(s, k, v),
    {
        let column = get_column(sudoku, i as i32);
        if !contains_all_digits(&column) {
            proof {
                let v = choose|v: i32| 1 <= v <= 9 && !column@.contains(v);
                if col_has(s, i as int, v) {
                    let r = choose|r: int| 0 <= r < 9 && #[trigger] s[r][i as int] == v;
                    assert(column@[r] == v);
                }
                assert(!all_units_complete(s));
            }
            return false;
        }
        assert forall|v: i32| 1 <= v <= 9 implies #[trigger] col_has(s, i as int, v) by {
            assert(column@.contains(v));
            let r = choose|r: int| 0 <= r < column@.len() && column@[r] == v;
            assert(s[r][i as int] == v);
        }
    }
    let bands_down = integer_sqrt(m);
    let bands_across = integer_sqrt(n);
    proof {
        lemma_sqrt_nine(bands_down as int);
        lemma_sqrt_nine(bands_across as int);
    }
    for i in 0..bands_down
        invariant
            bands_down == 3,
            bands_across == 3,
            well_formed(s),
            s == view(sudoku),
            forall|k: int, v: i32| 0 <= k < 9 && 1 <= v <= 9 ==> #[trigger] row_has(s, k, v),
            forall|k: int, v: i32| 0 <= k < 9 && 1 <= v <= 9 ==> #[trigger] col_has(s, k, v),
            forall|a: int, b: int, v: i32| 0 <= a < i && 0 <= b < 3 && 1 <= v <= 9 ==> #[trigger] box_has(s, a, b, v),
    {
        for j in 0..bands_across
            invariant
                bands_down == 3,
                bands_across == 3,
                i < 3,
                well_formed(s),
                s == view(sudoku),
                forall|k: int, v: i32| 0 <= k < 9 && 1 <= v <= 9 ==> #[trigger] row_has(s, k, v),
                forall|k: int, v: i32| 0 <= k < 9 && 1 <= v <= 9 ==> #[trigger] col_has(s, k, v),
                forall|a: int, b: int, v: i32| 0 <= a < i && 0 <= b < 3 && 1 <= v <= 9 ==> #[trigger] box_has(s, a, b, v),
                forall|b: int, v: i32| 0 <= b < j && 1 <= v <= 9 ==> #[trigger] box_has(s, i as int, b, v),
        {
            let subgrid = get_subgrid(sudoku, (i * 3) as i32, ((i + 1) * 3) as i32, (j * 3) as i32, ((j + 1) * 3) as i32);
            let ghost bx = subgrid_seq(s, 3 * i, 3 * i + 3, 3 * j, 3 * j + 3);
            assert(3 * i + 3 - 3 * i == 3 && 3 * j + 3 - 3 * j == 3);
            assert(bx.len() == 9);
            assert(subgrid@ == bx);
            if !contains_all_digits(&subgrid) {
                proof {
                    let v = choose|v: i32| 1 <= v <= 9 && !subgrid@.contains(v);
                    if box_has(s, i as int, j as int, v) {
                        let (a, b) = choose|a: int, b: int| 0 <= a < 3 && 0 <= b < 3 && #[trigger] s[3 * i + a][3 * j + b] == v;
                        assert(bx[3 * a + b] == v);
                    }
                    assert(!all_units_complete(s));
                }
                return false;
            }
            assert forall|v: i32| 1 <= v <= 9 implies #[trigger] box_has(s, i as int, j as int, v) by {
                assert(subgrid@.contains(v));
                let t = choose|t: int| 0 <= t < bx.len() && bx[t] == v;
                assert(s[3 * i + t / 3][3 * j + t % 3] == v);
            }
        }
    }
    true
}

/// The truncated square root of nine is three.
proof fn lemma_sqrt_nine(r: int)
    requires
        0 <= r,
        r * r <= 9,
        9 < (r + 1) * (r + 1),
    ensures
        r == 3,
{
    if r < 3 {
        assert((r + 1) * (r + 1) <= 9) by (nonlinear_arith)
            requires 0 <= r < 3;
    }
    if r > 3 {
        assert(r * r > 9) by (nonlinear_arith)
            requires r > 3;
    }
}

} // verus!
