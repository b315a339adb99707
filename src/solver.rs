//! Naked-single propagation followed by a depth-first search.

use crate::checker::{
    candidate, check_if_sudoku_solved, get_all_missing_numbers, is_loc_valid,
    lemma_agreeing_grid_valid, lemma_solved_units_distinct,
};
use crate::grid::{
    box_of, column_seq, rank, copy_grid, extends, get_all_empty_fields, is_solved, set_cell, solvable, view, well_formed,
};
use vstd::prelude::*;

verus! {

/// Ten to the power `e`.
pub open spec fn pow10(e: nat) -> int
    decreases e,
{
    if e == 0 {
        1
    } else {
        10 * pow10((e - 1) as nat)
    }
}

/// The value in the `j`-th cell of the list `l`.
pub open spec fn value_at(g: Seq<Seq<i32>>, l: Seq<(usize, usize)>, j: int) -> int {
    g[l[j].1 as int][l[j].0 as int] as int
}

/// The values of the first `i` listed cells read as the leading digits of a
/// base-ten number of `l.len()` digits.
pub open spec fn prefix_sum(g: Seq<Seq<i32>>, l: Seq<(usize, usize)>, i: int) -> int
    decreases i,
{
    if i <= 0 {
        0
    } else {
        prefix_sum(g, l, i - 1) + value_at(g, l, i - 1) * pow10((l.len() - i) as nat)
    }
}

/// How far the search has come: the number of digit strings, in the order of
/// the search, that lie behind the cursor at `i`.
pub open spec fn progress(g: Seq<Seq<i32>>, l: Seq<(usize, usize)>, i: int) -> int {
    if i < l.len() {
        prefix_sum(g, l, i) + (value_at(g, l, i) + 1) * pow10((l.len() - 1 - i) as nat)
    } else {
        prefix_sum(g, l, i) + 1
    }
}

/// `t` and `g` agree on the first `j` listed cells.
pub open spec fn prefix_eq(t: Seq<Seq<i32>>, g: Seq<Seq<i32>>, l: Seq<(usize, usize)>, j: int) -> bool {
    forall|k: int| 0 <= k < j ==> #[trigger] value_at(t, l, k) == value_at(g, l, k)
}

/// The listed values of `t` come before the search position `(g, i)`: the
/// search has already ruled them out.
pub open spec fn explored(t: Seq<Seq<i32>>, g: Seq<Seq<i32>>, l: Seq<(usize, usize)>, i: int) -> bool {
    ||| exists|j: int| 0 <= j < i && #[trigger] prefix_eq(t, g, l, j) && value_at(t, l, j) < value_at(g, l, j)
    ||| (i < l.len() && prefix_eq(t, g, l, i) && value_at(t, l, i) <= value_at(g, l, i))
}

proof fn lemma_pow10_positive(e: nat)
    ensures
        pow10(e) > 0,
    decreases e,
{
    if e > 0 {
        lemma_pow10_positive((e - 1) as nat);
    }
}

/// `prefix_sum` reads only the first `i` listed cells.
proof fn lemma_prefix_sum_frame(g: Seq<Seq<i32>>, h: Seq<Seq<i32>>, l: Seq<(usize, usize)>, i: int)
    requires
        forall|k: int| 0 <= k < i ==> #[trigger] value_at(g, l, k) == value_at(h, l, k),
    ensures
        prefix_sum(g, l, i) == prefix_sum(h, l, i),
    decreases i,
{
    if i > 0 {
        lemma_prefix_sum_frame(g, h, l, i - 1);
    }
}

/// With digits in `0..=9`, the leading `i` digits stay below `10^n`.
proof fn lemma_prefix_sum_bound(g: Seq<Seq<i32>>, l: Seq<(usize, usize)>, i: int)
    requires
        0 <= i <= l.len(),
        forall|k: int| 0 <= k < i ==> 0 <= #[trigger] value_at(g, l, k) <= 9,
    ensures
        prefix_sum(g, l, i) <= pow10(l.len()) - pow10((l.len() - i) as nat),
        prefix_sum(g, l, i) >= 0,
    decreases i,
{
    let n = l.len();
    if i > 0 {
        lemma_prefix_sum_bound(g, l, i - 1);
        let p = pow10((n - i) as nat);
        let d = value_at(g, l, i - 1);
        lemma_pow10_positive((n - i) as nat);
        assert(pow10((n - (i - 1)) as nat) == 10 * p);
        assert(d * p <= 9 * p && d * p >= 0) by (nonlinear_arith)
            requires
                0 <= d <= 9,
                p > 0,
        ;
    }
}

/// The search position never passes `10^n`.
proof fn lemma_progress_bound(g: Seq<Seq<i32>>, l: Seq<(usize, usize)>, i: int)
    requires
        0 <= i <= l.len(),
        forall|k: int| 0 <= k < l.len() ==> 0 <= #[trigger] value_at(g, l, k) <= 9,
    ensures
        progress(g, l, i) <= pow10(l.len()),
{
    let n = l.len();
    lemma_prefix_sum_bound(g, l, i);
    if i < n {
        let p = pow10((n - 1 - i) as nat);
        let d = value_at(g, l, i);
        lemma_pow10_positive((n - 1 - i) as nat);
        assert(pow10((n - i) as nat) == 10 * p);
        assert((d + 1) * p <= 10 * p) by (nonlinear_arith)
            requires
                0 <= d <= 9,
                p > 0,
        ;
    } else {
        assert(pow10(0) == 1);
    }
}

/// A cell whose only candidate is `x` holds `x` in every solution that keeps
/// the grid's filled cells.
proof fn lemma_forced_value(g: Seq<Seq<i32>>, t: Seq<Seq<i32>>, r: int, c: int, x: i32)
    requires
        well_formed(g),
        is_solved(t),
        extends(g, t),
        0 <= r < 9,
        0 <= c < 9,
        g[r][c] == 0,
        forall|y: i32| #[trigger] candidate(g, r, c, y) ==> y == x,
    ensures
        t[r][c] == x,
{
    lemma_solved_units_distinct(t, r, c);
    let y = t[r][c];
    if g[r].contains(y) {
        let k = choose|k: int| 0 <= k < g[r].len() && g[r][k] == y;
        assert(t[r][k] == y);
        assert(t[r][k] == t[r][c]);
    }
    let gc = column_seq(g, c);
    let tc = column_seq(t, c);
    if gc.contains(y) {
        let k = choose|k: int| 0 <= k < gc.len() && gc[k] == y;
        assert(t[k][c] == y);
        assert(tc[k] == tc[r]);
    }
    let gb = box_of(g, r, c);
    let tb = box_of(t, r, c);
    let k0 = r % 3 * 3 + c % 3;
    assert(gb[k0] == g[r][c]);
    assert(tb[k0] == t[r][c]);
    if gb.contains(y) {
        let k = choose|k: int| 0 <= k < gb.len() && gb[k] == y;
        assert(tb[k] == gb[k]);
        assert(tb[k] == tb[k0]);
    }
    assert(candidate(g, r, c, y));
}

/// Where the cells filled by the search agree with a solution on the first
/// `m` listed cells, and the later listed cells are empty, every filled cell
/// agrees with it.
proof fn lemma_search_agrees(
    g0: Seq<Seq<i32>>,
    cur: Seq<Seq<i32>>,
    t: Seq<Seq<i32>>,
    l: Seq<(usize, usize)>,
    m: int,
)
    requires
        well_formed(cur),
        extends(g0, t),
        forall|r: int, c: int| 0 <= r < 9 && 0 <= c < 9 && #[trigger] g0[r][c] != 0 ==> cur[r][c] == g0[r][c],
        forall|p: (usize, usize)| #[trigger] l.contains(p) <==> (p.0 < 9 && p.1 < 9 && g0[p.1 as int][p.0 as int] == 0),
        0 <= m <= l.len(),
        prefix_eq(t, cur, l, m),
        forall|j: int| m <= j < l.len() ==> #[trigger] value_at(cur, l, j) == 0,
    ensures
        extends(cur, t),
{
    assert forall|r: int, c: int| 0 <= r < 9 && 0 <= c < 9 && #[trigger] cur[r][c] != 0 implies t[r][c] == cur[r][c] by {
        if g0[r][c] == 0 {
            let p = (c as usize, r as usize);
            assert(l.contains(p));
            let j = choose|j: int| 0 <= j < l.len() && l[j] == p;
            assert(value_at(cur, l, j) == cur[r][c]);
            assert(value_at(t, l, j) == value_at(cur, l, j));
        } else {
            assert(t[r][c] == g0[r][c]);
        }
    }
}

/// Writing into the `i`-th listed cell changes no other listed cell.
proof fn lemma_listed_write(cur: Seq<Seq<i32>>, l: Seq<(usize, usize)>, i: int, v: i32)
    requires
        well_formed(cur),
        0 <= i < l.len(),
        forall|j: int| 0 <= j < l.len() ==> (#[trigger] l[j]).0 < 9 && l[j].1 < 9,
        forall|a: int, b: int| 0 <= a < b < l.len() ==> rank(#[trigger] l[a]) < rank(#[trigger] l[b]),
    ensures
        value_at(cur.update(l[i].1 as int, cur[l[i].1 as int].update(l[i].0 as int, v)), l, i) == v,
        forall|j: int| 0 <= j < l.len() && j != i ==>
            #[trigger] value_at(cur.update(l[i].1 as int, cur[l[i].1 as int].update(l[i].0 as int, v)), l, j) == value_at(cur, l, j),
{
    let cur2 = cur.update(l[i].1 as int, cur[l[i].1 as int].update(l[i].0 as int, v));
    assert forall|j: int| 0 <= j < l.len() && j != i implies #[trigger] value_at(cur2, l, j) == value_at(cur, l, j) by {
        if j < i {
            assert(rank(l[j]) < rank(l[i]));
        } else {
            assert(rank(l[i]) < rank(l[j]));
        }
        assert(l[j] != l[i]);
        assert(l[j].0 < 9 && l[j].1 < 9);
        if l[j].1 == l[i].1 {
            assert(l[j].0 != l[i].0);
            assert(cur2[l[j].1 as int] == cur[l[i].1 as int].update(l[i].0 as int, v));
        } else {
            assert(cur2[l[j].1 as int] == cur[l[j].1 as int]);
        }
    }
}

/// Writing a value of `0..=9` into a cell that is empty in `s` keeps the grid
/// well formed and extending `s`.
proof fn lemma_write_empty(s: Seq<Seq<i32>>, t: Seq<Seq<i32>>, r: int, c: int, v: i32)
    requires
        well_formed(t),
        extends(s, t),
        0 <= r < 9,
        0 <= c < 9,
        s[r][c] == 0,
        0 <= v <= 9,
    ensures
        well_formed(t.update(r, t[r].update(c, v))),
        extends(s, t.update(r, t[r].update(c, v))),
{
    let u = t.update(r, t[r].update(c, v));
    assert forall|a: int, b: int| 0 <= a < 9 && 0 <= b < 9 && #[trigger] s[a][b] != 0 implies u[a][b] == s[a][b] by {
        assert(t[a][b] == s[a][b]);
    }
    assert forall|a: int| 0 <= a < 9 implies #[trigger] u[a].len() == 9 by {}
    assert forall|a: int, b: int| 0 <= a < 9 && 0 <= b < 9 implies 0 <= #[trigger] u[a][b] <= 9 by {
        assert(0 <= t[a][b] <= 9);
    }
}

/// Solves a copy of the grid. Grids whose filled cells already break a rule
/// are refused at once. Otherwise every cell with a single candidate is
/// filled until none is left; then the remaining empty cells are searched
/// depth first in row-major order, each trying the values `1..=9` in turn.
/// A completed grid that fails the solved check is rejected like any other
/// dead end, so the search is exhaustive: the result is `Some` exactly when
/// the grid has a solution, and that solution keeps every filled cell of the
/// input. The search starts from the grid exactly as propagation left it: no
/// cell, the top-left one included, is emptied again before it, so no given
/// or forced value is ever dropped. A grid that is already solved comes back
/// unchanged.
pub fn solve_grid(sudoku_check: &Vec<Vec<i32>>) -> (result: Option<Vec<Vec<i32>>>)
    requires
        well_formed(view(sudoku_check)),
    ensures
        (result matches Some(t) ==> is_solved(view(&t)) && extends(view(sudoku_check), view(&t))),
        result is Some <==> solvable(view(sudoku_check)),
        is_solved(view(sudoku_check)) ==> (result matches Some(t) && view(&t) == view(sudoku_check)),
{
    let ghost s = view(sudoku_check);
    proof {
        crate::grid::lemma_rows(sudoku_check);
        if is_solved(s) {
            assert(extends(s, s));
        }
    }
    for r in 0..9
        invariant
            well_formed(s),
            s == view(sudoku_check),
    {
        for c in 0..9
            invariant
                well_formed(s),
                s == view(sudoku_check),
                r < 9,
        {
            assert(sudoku_check@[r as int]@ == s[r as int]);
            if sudoku_check[r][c] != 0 && !is_loc_valid(sudoku_check, c as i32, r as i32) {
                proof {
                    if is_solved(s) {
                        assert(extends(s, s));
                    }
                    if solvable(s) {
                        let t = choose|t: Seq<Seq<i32>>| is_solved(t) && #[trigger] extends(s, t);
                        lemma_agreeing_grid_valid(s, t, r as int, c as int);
                    }
                }
                return None;
            }
        }
    }
    let mut sudoku_to_solve = copy_grid(sudoku_check);
    proof {
        if is_solved(s) {
            assert(extends(s, s));
        }
    }
    let mut passes_left: usize = 82;
    while passes_left > 0
        invariant
            well_formed(s),
            well_formed(view(&sudoku_to_solve)),
            extends(s, view(&sudoku_to_solve)),
            forall|t: Seq<Seq<i32>>| is_solved(t) && #[trigger] extends(s, t) ==> extends(view(&sudoku_to_solve), t),
        decreases passes_left,
    {
        passes_left -= 1;
        let mut found: bool = false;
        let all_empty_loc = get_all_empty_fields(&sudoku_to_solve);
        let n = all_empty_loc.len();
        assert forall|q: int| 0 <= q < n implies (#[trigger] all_empty_loc@[q]).0 < 9 && all_empty_loc@[q].1 < 9 by {
            assert(all_empty_loc@.contains(all_empty_loc@[q]));
        }
        for k in 0..n
            invariant
                n == all_empty_loc@.len(),
                well_formed(s),
                well_formed(view(&sudoku_to_solve)),
                extends(s, view(&sudoku_to_solve)),
                forall|t: Seq<Seq<i32>>| is_solved(t) && #[trigger] extends(s, t) ==> extends(view(&sudoku_to_solve), t),
                forall|q: int| 0 <= q < n ==> (#[trigger] all_empty_loc@[q]).0 < 9 && all_empty_loc@[q].1 < 9,
        {
            let loc = all_empty_loc[k];
            assert(all_empty_loc@.contains(loc));
            proof {
                crate::grid::lemma_rows(&sudoku_to_solve);
            }
            if sudoku_to_solve[loc.1][loc.0] == 0 {
                let all_missing_numbers = get_all_missing_numbers(&sudoku_to_solve, loc.0 as i32, loc.1 as i32);
                if all_missing_numbers.len() == 1 {
                    let value = all_missing_numbers[0];
                    let ghost before = view(&sudoku_to_solve);
                    assert(all_missing_numbers@.contains(value));
                    assert(candidate(before, loc.1 as int, loc.0 as int, value));
                    proof {
                        lemma_write_empty(s, before, loc.1 as int, loc.0 as int, value);
                        assert forall|y: i32| #[trigger] candidate(before, loc.1 as int, loc.0 as int, y) implies y == value by {
                            assert(all_missing_numbers@.contains(y));
                        }
                    }
                    set_cell(&mut sudoku_to_solve, loc.1, loc.0, value);
                    proof {
                        let now = view(&sudoku_to_solve);
                        assert forall|t: Seq<Seq<i32>>| is_solved(t) && #[trigger] extends(s, t) implies extends(now, t) by {
                            assert(extends(before, t));
                            lemma_forced_value(before, t, loc.1 as int, loc.0 as int, value);
                            assert forall|r: int, c: int| 0 <= r < 9 && 0 <= c < 9 && #[trigger] now[r][c] != 0 implies t[r][c] == now[r][c] by {
                                if r != loc.1 || c != loc.0 {
                                    assert(now[r][c] == before[r][c]);
                                }
                            }
                        }
                    }
                    found = true;
                }
            }
        }
        if !found {
            break;
        }
    }
    let ghost g0 = view(&sudoku_to_solve);
    let all_empty_loc = get_all_empty_fields(&sudoku_to_solve);
    let ghost l = all_empty_loc@;
    let n = all_empty_loc.len();
    assert forall|q: int| 0 <= q < n implies (#[trigger] l[q]).0 < 9 && l[q].1 < 9 && g0[l[q].1 as int][l[q].0 as int] == 0 by {
        assert(l.contains(l[q]));
    }
    let mut i: usize = 0;
    proof {
        assert forall|t: Seq<Seq<i32>>| is_solved(t) && #[trigger] extends(g0, t) implies !explored(t, g0, l, 0) by {
            if n > 0 {
                assert(value_at(g0, l, 0) == 0);
                assert(1 <= t[l[0].1 as int][l[0].0 as int]);
            }
        }
        assert forall|j: int| 0 < j < n implies #[trigger] value_at(g0, l, j) == 0 by {}
    }
    loop
        invariant
            n == l.len(),
            l == all_empty_loc@,
            i <= n,
            s == view(sudoku_check),
            is_solved(s) ==> solvable(s),
            well_formed(s),
            well_formed(g0),
            extends(s, g0),
            well_formed(view(&sudoku_to_solve)),
            extends(s, view(&sudoku_to_solve)),
            forall|t: Seq<Seq<i32>>| is_solved(t) && #[trigger] extends(s, t) ==> extends(g0, t),
            forall|r: int, c: int| 0 <= r < 9 && 0 <= c < 9 && #[trigger] g0[r][c] != 0 ==>
                view(&sudoku_to_solve)[r][c] == g0[r][c],
            forall|p: (usize, usize)| #[trigger] l.contains(p) <==> (p.0 < 9 && p.1 < 9 && g0[p.1 as int][p.0 as int] == 0),
            forall|q: int| 0 <= q < n ==> (#[trigger] l[q]).0 < 9 && l[q].1 < 9 && g0[l[q].1 as int][l[q].0 as int] == 0,
            forall|a: int, b: int| 0 <= a < b < l.len() ==> rank(#[trigger] l[a]) < rank(#[trigger] l[b]),
            forall|j: int| i < j < n ==> #[trigger] value_at(view(&sudoku_to_solve), l, j) == 0,
            forall|t: Seq<Seq<i32>>| is_solved(t) && #[trigger] extends(g0, t) ==> !explored(t, view(&sudoku_to_solve), l, i as int),
        decreases pow10(n as nat) - progress(view(&sudoku_to_solve), l, i as int), i,
    {
        let ghost cur = view(&sudoku_to_solve);
        let ghost i0 = i;
        proof {
            crate::grid::lemma_rows(&sudoku_to_solve);
            assert forall|k: int| 0 <= k < n implies 0 <= #[trigger] value_at(cur, l, k) <= 9 by {
                assert(l[k].0 < 9 && l[k].1 < 9);
            }
            lemma_progress_bound(cur, l, i as int);
        }
        if i == n {
            if check_if_sudoku_solved(&sudoku_to_solve) {
                proof {
                    assert(extends(s, cur));
                    if is_solved(s) {
                        assert forall|r: int| 0 <= r < 9 implies #[trigger] cur[r] =~= s[r] by {
                            assert forall|c: int| 0 <= c < 9 implies cur[r][c] == s[r][c] by {
                                assert(s[r][c] != 0);
                            }
                        }
                        assert(cur =~= s);
                    }
                    assert(is_solved(cur));
                    assert(extends(s, cur));
                }
                return Some(sudoku_to_solve);
            }
            proof {
                // A solution that agrees with every listed value would be this grid.
                assert forall|t: Seq<Seq<i32>>| is_solved(t) && #[trigger] extends(g0, t) implies !prefix_eq(t, cur, l, n as int) by {
                    if prefix_eq(t, cur, l, n as int) {
                        assert forall|r: int| 0 <= r < 9 implies #[trigger] cur[r] =~= t[r] by {
                            assert forall|c: int| 0 <= c < 9 implies cur[r][c] == t[r][c] by {
                                if g0[r][c] == 0 {
                                    let p = (c as usize, r as usize);
                                    assert(l.contains(p));
                                    let j = choose|j: int| 0 <= j < l.len() && l[j] == p;
                                    assert(value_at(t, l, j) == value_at(cur, l, j));
                                } else {
                                    assert(t[r][c] == g0[r][c]);
                                }
                            }
                        }
                        assert(cur =~= t);
                    }
                }
            }
            if n == 0 {
                proof {
                    if solvable(s) {
                        let t = choose|t: Seq<Seq<i32>>| is_solved(t) && #[trigger] extends(s, t);
                        assert(extends(g0, t));
                        assert(prefix_eq(t, cur, l, 0));
                    }
                }
                return None;
            }
            i = n - 1;
            proof {
                assert forall|t: Seq<Seq<i32>>| is_solved(t) && #[trigger] extends(g0, t) implies !explored(t, cur, l, i as int) by {
                    assert(!explored(t, cur, l, n as int));
                    if prefix_eq(t, cur, l, i as int) && value_at(t, l, i as int) <= value_at(cur, l, i as int) {
                        if value_at(t, l, i as int) == value_at(cur, l, i as int) {
                            assert(prefix_eq(t, cur, l, n as int));
                        } else {
                            assert(prefix_eq(t, cur, l, i as int) && value_at(t, l, i as int) < value_at(cur, l, i as int));
                        }
                    }
                    if exists|j: int| 0 <= j < i && #[trigger] prefix_eq(t, cur, l, j) && value_at(t, l, j) < value_at(cur, l, j) {
                        let j = choose|j: int| 0 <= j < i && #[trigger] prefix_eq(t, cur, l, j) && value_at(t, l, j) < value_at(cur, l, j);
                        assert(j < n);
                    }
                }
                let one = pow10((n - 1 - i) as nat);
                let v = value_at(cur, l, i as int);
                assert(one == 1);
                assert(pow10((n - (i + 1)) as nat) == 1);
                assert(v * one == v && (v + 1) * one == v + 1) by (nonlinear_arith)
                    requires one == 1;
                assert(prefix_sum(cur, l, n as int) == prefix_sum(cur, l, i as int) + v * one);
                assert(progress(cur, l, i as int) == prefix_sum(cur, l, i as int) + (v + 1) * one);
                assert(progress(cur, l, i as int) == progress(cur, l, n as int));
            }
        } else {
            let (xloc, yloc) = all_empty_loc[i];
            assert(l[i as int] == (xloc, yloc));
            let var_check = sudoku_to_solve[yloc][xloc];
            assert(var_check == value_at(cur, l, i as int));
            if var_check == 9 {
                proof {
                    lemma_write_empty(s, cur, yloc as int, xloc as int, 0);
                    lemma_listed_write(cur, l, i as int, 0);
                }
                set_cell(&mut sudoku_to_solve, yloc, xloc, 0);
                let ghost next = view(&sudoku_to_solve);
                if i == 0 {
                    proof {
                        if solvable(s) {
                            let t = choose|t: Seq<Seq<i32>>| is_solved(t) && #[trigger] extends(s, t);
                            assert(extends(g0, t));
                            assert(prefix_eq(t, cur, l, 0));
                            assert(1 <= t[l[0].1 as int][l[0].0 as int] <= 9);
                            assert(explored(t, cur, l, 0));
                        }
                    }
                    return None;
                }
                i -= 1;
                proof {
                    assert forall|t: Seq<Seq<i32>>| is_solved(t) && #[trigger] extends(g0, t) implies !explored(t, next, l, i as int) by {
                        assert(!explored(t, cur, l, i + 1));
                        assert forall|j: int| 0 <= j <= i + 1 implies #[trigger] prefix_eq(t, next, l, j) == prefix_eq(t, cur, l, j) by {
                            assert forall|k: int| 0 <= k < j implies value_at(next, l, k) == value_at(cur, l, k) by {}
                        }
                        if exists|j: int| 0 <= j < i && #[trigger] prefix_eq(t, next, l, j) && value_at(t, l, j) < value_at(next, l, j) {
                            let j = choose|j: int| 0 <= j < i && #[trigger] prefix_eq(t, next, l, j) && value_at(t, l, j) < value_at(next, l, j);
                            assert(prefix_eq(t, cur, l, j) && value_at(t, l, j) < value_at(cur, l, j));
                        }
                        if prefix_eq(t, next, l, i as int) && value_at(t, l, i as int) <= value_at(next, l, i as int) {
                            if value_at(t, l, i as int) < value_at(cur, l, i as int) {
                                assert(prefix_eq(t, cur, l, i as int));
                            } else {
                                assert(prefix_eq(t, cur, l, i + 1));
                                assert(t[l[i + 1].1 as int][l[i + 1].0 as int] <= 9);
                            }
                        }
                    }
                    lemma_prefix_sum_frame(cur, next, l, i as int);
                    let big = pow10((n - 1 - i) as nat);
                    let small = pow10((n - 1 - (i + 1)) as nat);
                    assert(big == 10 * small);
                    assert(pow10((n - (i + 1)) as nat) == big);
                    let v = value_at(cur, l, i as int);
                    assert(value_at(next, l, i as int) == v);
                    assert((v + 1) * big == v * big + 10 * small) by (nonlinear_arith)
                        requires big == 10 * small;
                    assert(prefix_sum(cur, l, i + 1) == prefix_sum(cur, l, i as int) + v * big);
                    assert(progress(cur, l, i + 1) == prefix_sum(cur, l, i + 1) + 10 * small);
                    assert(progress(next, l, i as int) == progress(cur, l, i + 1));
                }
            } else {
                let value = var_check + 1;
                proof {
                    lemma_write_empty(s, cur, yloc as int, xloc as int, value);
                    lemma_listed_write(cur, l, i as int, value);
                }
                set_cell(&mut sudoku_to_solve, yloc, xloc, value);
                let ghost next = view(&sudoku_to_solve);
                proof {
                    lemma_prefix_sum_frame(cur, next, l, i as int);
                    lemma_pow10_positive((n - 1 - i) as nat);
                    let p = pow10((n - 1 - i) as nat);
                    let v = value_at(cur, l, i as int);
                    assert(value_at(next, l, i as int) == v + 1);
                    assert((v + 2) * p > (v + 1) * p) by (nonlinear_arith)
                        requires p > 0;
                    assert(progress(next, l, i as int) > progress(cur, l, i as int));
                    assert(prefix_sum(next, l, i + 1) == prefix_sum(cur, l, i as int) + (v + 1) * p);
                }
                if is_loc_valid(&sudoku_to_solve, xloc as i32, yloc as i32) {
                    i += 1;
                    proof {
                        assert forall|t: Seq<Seq<i32>>| is_solved(t) && #[trigger] extends(g0, t) implies !explored(t, next, l, i as int) by {
                            assert(!explored(t, cur, l, i - 1));
                            assert forall|j: int| 0 <= j < i implies #[trigger] prefix_eq(t, next, l, j) == prefix_eq(t, cur, l, j) by {
                                assert forall|k: int| 0 <= k < j implies value_at(next, l, k) == value_at(cur, l, k) by {}
                            }
                            if exists|j: int| 0 <= j < i && #[trigger] prefix_eq(t, next, l, j) && value_at(t, l, j) < value_at(next, l, j) {
                                let j = choose|j: int| 0 <= j < i && #[trigger] prefix_eq(t, next, l, j) && value_at(t, l, j) < value_at(next, l, j);
                                if j < i - 1 {
                                    assert(prefix_eq(t, cur, l, j) && value_at(t, l, j) < value_at(cur, l, j));
                                } else {
                                    assert(prefix_eq(t, cur, l, i - 1) && value_at(t, l, i - 1) <= value_at(cur, l, i - 1));
                                }
                            }
                            if i < n && prefix_eq(t, next, l, i as int) && value_at(t, l, i as int) <= value_at(next, l, i as int) {
                                assert(value_at(next, l, i as int) == 0);
                                assert(1 <= t[l[i as int].1 as int][l[i as int].0 as int]);
                            }
                        }
                        if i < n {
                            lemma_pow10_positive((n - 1 - i) as nat);
                            let p = pow10((n - 1 - i) as nat);
                            assert(value_at(next, l, i as int) == 0);
                            assert((value_at(next, l, i as int) + 1) * p == p) by (nonlinear_arith)
                                requires value_at(next, l, i as int) == 0;
                            assert(progress(next, l, i as int) == prefix_sum(next, l, i as int) + p);
                            assert(prefix_sum(next, l, i as int) == prefix_sum(next, l, i - 1) + value_at(next, l, i - 1) * pow10((n - i) as nat));
                        } else {
                            assert(pow10(0) == 1);
                        }
                        assert(progress(next, l, i as int) > progress(cur, l, i - 1));
                    }
                } else {
                    proof {
                        assert forall|t: Seq<Seq<i32>>| is_solved(t) && #[trigger] extends(g0, t) implies !explored(t, next, l, i as int) by {
                            assert(!explored(t, cur, l, i as int));
                            assert forall|j: int| 0 <= j <= i implies #[trigger] prefix_eq(t, next, l, j) == prefix_eq(t, cur, l, j) by {
                                assert forall|k: int| 0 <= k < j implies value_at(next, l, k) == value_at(cur, l, k) by {}
                            }
                            if exists|j: int| 0 <= j < i && #[trigger] prefix_eq(t, next, l, j) && value_at(t, l, j) < value_at(next, l, j) {
                                let j = choose|j: int| 0 <= j < i && #[trigger] prefix_eq(t, next, l, j) && value_at(t, l, j) < value_at(next, l, j);
                                assert(prefix_eq(t, cur, l, j) && value_at(t, l, j) < value_at(cur, l, j));
                            }
                            if prefix_eq(t, next, l, i as int) && value_at(t, l, i as int) <= value_at(next, l, i as int) {
                                if value_at(t, l, i as int) == value_at(next, l, i as int) {
                                    assert(prefix_eq(t, next, l, i + 1));
                                    lemma_search_agrees(g0, next, t, l, i + 1);
                                    lemma_agreeing_grid_valid(next, t, yloc as int, xloc as int);
                                } else {
                                    assert(prefix_eq(t, cur, l, i as int));
                                }
                            }
                        }
                    }
                }
            }
        }
        proof {
            let now = view(&sudoku_to_solve);
            crate::grid::lemma_rows(&sudoku_to_solve);
            assert forall|k: int| 0 <= k < n implies 0 <= #[trigger] value_at(now, l, k) <= 9 by {
                assert(l[k].0 < 9 && l[k].1 < 9);
            }
            lemma_progress_bound(now, l, i as int);
            assert(pow10(n as nat) - progress(cur, l, i0 as int) >= 0);
            assert(pow10(n as nat) - progress(view(&sudoku_to_solve), l, i as int) < pow10(n as nat) - progress(cur, l, i0 as int)
                || (progress(view(&sudoku_to_solve), l, i as int) == progress(cur, l, i0 as int) && i < i0));
        }
    }
}

/// Whether the grid has a solution that keeps its filled cells; the grid
/// itself is left as it was. The verdict is a function of the grid alone, so
/// asking twice about the same grid gives the same answer.
pub fn solve_sudoku(sudoku_check: &Vec<Vec<i32>>) -> (solved: bool)
    requires
        well_formed(view(sudoku_check)),
    ensures
        solved == solvable(view(sudoku_check)),
{
    solve_grid(sudoku_check).is_some()
}

} // verus!
