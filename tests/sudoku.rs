use sudoku_creator::{
    flip_column_band, flip_row_band, try_blank_cell,
    check_if_sudoku_solved, common_numbers, contains_all_digits, empty_grid, fill_row,
    find_missing_numbers, flip_all_columns, flip_all_rows, flip_column, flip_columns,
    flip_grid_columns, flip_grid_rows, flip_row, flip_rows, generate_full_sudoku,
    generate_sudoku_to_solve, generate_two_unique_random_numbers, get_all_empty_fields,
    get_all_missing_numbers, get_column, get_row, get_subgrid, get_subgrid_coor, is_loc_valid,
    is_vec_valid, random_rotate, rotate_180_degrees, rotate_270_degrees, rotate_90_degrees,
    solve_grid, solve_sudoku,
};

fn puzzle() -> Vec<Vec<i32>> {
    vec![
        vec![5, 3, 0, 0, 7, 0, 0, 0, 0],
        vec![6, 0, 0, 1, 9, 5, 0, 0, 0],
        vec![0, 9, 8, 0, 0, 0, 0, 6, 0],
        vec![8, 0, 0, 0, 6, 0, 0, 0, 3],
        vec![4, 0, 0, 8, 0, 3, 0, 0, 1],
        vec![7, 0, 0, 0, 2, 0, 0, 0, 6],
        vec![0, 6, 0, 0, 0, 0, 2, 8, 0],
        vec![0, 0, 0, 4, 1, 9, 0, 0, 5],
        vec![0, 0, 0, 0, 8, 0, 0, 7, 9],
    ]
}

fn solution() -> Vec<Vec<i32>> {
    vec![
        vec![5, 3, 4, 6, 7, 8, 9, 1, 2],
        vec![6, 7, 2, 1, 9, 5, 3, 4, 8],
        vec![1, 9, 8, 3, 4, 2, 5, 6, 7],
        vec![8, 5, 9, 7, 6, 1, 4, 2, 3],
        vec![4, 2, 6, 8, 5, 3, 7, 9, 1],
        vec![7, 1, 3, 9, 2, 4, 8, 5, 6],
        vec![9, 6, 1, 5, 3, 7, 2, 8, 4],
        vec![2, 8, 7, 4, 1, 9, 6, 3, 5],
        vec![3, 4, 5, 2, 8, 6, 1, 7, 9],
    ]
}

fn zeros(g: &Vec<Vec<i32>>) -> usize {
    g.iter().map(|r| r.iter().filter(|&&v| v == 0).count()).sum()
}

fn all_units_exactly_once(g: &Vec<Vec<i32>>) -> bool {
    let mut units: Vec<Vec<i32>> = Vec::new();
    for i in 0..9 {
        units.push(g[i].clone());
        units.push((0..9).map(|r| g[r][i]).collect());
        let (br, bc) = (i / 3 * 3, i % 3 * 3);
        units.push((0..9).map(|k| g[br + k / 3][bc + k % 3]).collect());
    }
    units.iter().all(|u| {
        let mut s = u.clone();
        s.sort();
        s == vec![1, 2, 3, 4, 5, 6, 7, 8, 9]
    })
}

#[test]
fn generated_grid_is_solved() {
    for _ in 0..5 {
        let g = generate_full_sudoku(9, 9);
        assert!(check_if_sudoku_solved(&g));
        assert!(all_units_exactly_once(&g));
    }
}

#[test]
fn carved_puzzle_has_target_empties_and_solves() {
    let filled = generate_full_sudoku(9, 9);
    let carved = generate_sudoku_to_solve(&filled, 50, 100_000).expect("carving reaches 50");
    assert_eq!(zeros(&carved), 50);
    assert!(solve_sudoku(&carved));
    for r in 0..9 {
        for c in 0..9 {
            assert!(carved[r][c] == 0 || carved[r][c] == filled[r][c]);
        }
    }
    assert!(check_if_sudoku_solved(&filled));
}

#[test]
fn carving_zero_cells_returns_the_grid() {
    let filled = solution();
    assert_eq!(generate_sudoku_to_solve(&filled, 0, 0), Some(solution()));
}

#[test]
fn solver_gives_same_verdict_twice() {
    let p = puzzle();
    let first = solve_sudoku(&p);
    let second = solve_sudoku(&p);
    assert_eq!(first, second);
    assert_eq!(p, puzzle());
    let mut bad = puzzle();
    bad[0][2] = 5;
    assert_eq!(solve_sudoku(&bad), solve_sudoku(&bad));
}

#[test]
fn swaps_and_rotations_keep_grid_solved() {
    let g = solution();
    assert!(check_if_sudoku_solved(&flip_row(g.clone(), 3, 5)));
    assert!(check_if_sudoku_solved(&flip_column(g.clone(), 6, 7)));
    let mut banded = g.clone();
    for i in 0..3 {
        banded = flip_row(banded, i, 6 + i);
    }
    assert!(check_if_sudoku_solved(&banded));
    let mut r = g.clone();
    rotate_90_degrees(&mut r);
    assert!(check_if_sudoku_solved(&r));
    let mut r = g.clone();
    rotate_180_degrees(&mut r);
    assert!(check_if_sudoku_solved(&r));
    let mut r = g.clone();
    rotate_270_degrees(&mut r);
    assert!(check_if_sudoku_solved(&r));
}

#[test]
fn swap_across_bands_breaks_subgrids() {
    assert!(!check_if_sudoku_solved(&flip_row(solution(), 0, 3)));
}

#[test]
fn random_shuffles_keep_grid_solved() {
    let g = solution();
    assert!(check_if_sudoku_solved(&flip_all_rows(g.clone())));
    assert!(check_if_sudoku_solved(&flip_all_columns(g.clone())));
    assert!(check_if_sudoku_solved(&flip_grid_rows(g.clone())));
    assert!(check_if_sudoku_solved(&flip_grid_columns(g.clone())));
    let rows = flip_rows(g.clone(), 5, 3, 5);
    assert_eq!(rows[0..3], g[0..3]);
    assert_eq!(rows[6..9], g[6..9]);
    let cols = flip_columns(g.clone(), 5, 0, 2);
    for r in 0..9 {
        assert_eq!(cols[r][3..9], g[r][3..9]);
    }
    let mut r = g.clone();
    random_rotate(&mut r);
    let mut r90 = g.clone();
    rotate_90_degrees(&mut r90);
    let mut r180 = g.clone();
    rotate_180_degrees(&mut r180);
    let mut r270 = g.clone();
    rotate_270_degrees(&mut r270);
    assert!(r == g || r == r90 || r == r180 || r == r270);
}

#[test]
fn rotation_values() {
    let g = solution();
    let mut r = g.clone();
    rotate_90_degrees(&mut r);
    assert_eq!(r[0], vec![3, 2, 9, 7, 4, 8, 1, 6, 5]);
    let mut r = g.clone();
    rotate_180_degrees(&mut r);
    assert_eq!(r[0], vec![9, 7, 1, 6, 8, 2, 5, 4, 3]);
    let mut r = g.clone();
    rotate_270_degrees(&mut r);
    assert_eq!(r[0], vec![2, 8, 7, 3, 1, 6, 4, 5, 9]);
}

#[test]
fn candidates_on_empty_grid_are_all_digits() {
    let g = empty_grid();
    for r in 0..9 {
        for c in 0..9 {
            let mut cands = get_all_missing_numbers(&g, c, r);
            cands.sort();
            assert_eq!(cands, vec![1, 2, 3, 4, 5, 6, 7, 8, 9]);
        }
    }
}

#[test]
fn candidates_of_a_cell() {
    let mut cands = get_all_missing_numbers(&puzzle(), 2, 0);
    cands.sort();
    assert_eq!(cands, vec![1, 2, 4]);
}

#[test]
fn missing_values_complement_present_values() {
    let v = vec![5, 3, 0, 0, 7, 0, 0, 0, 0];
    let missing = find_missing_numbers(&v);
    assert_eq!(missing, vec![1, 2, 4, 6, 8, 9]);
    for x in 1..=9 {
        assert!(missing.contains(&x) != v.contains(&x));
    }
    assert_eq!(find_missing_numbers(&vec![1, 1, 2, 2, 0, 0, 0, 0, 0]), vec![3, 4, 5, 6, 7, 8, 9]);
    assert_eq!(find_missing_numbers(&vec![9, 8, 7, 6, 5, 4, 3, 2, 1]), Vec::<i32>::new());
}

#[test]
fn classic_puzzle_is_solved() {
    let p = puzzle();
    assert!(solve_sudoku(&p));
    let t = solve_grid(&p).expect("the puzzle has a solution");
    assert_eq!(t[0][1], 3);
    assert!(all_units_exactly_once(&t));
    assert_eq!(t, solution());
}

#[test]
fn solved_grid_comes_back_unchanged() {
    assert_eq!(solve_grid(&solution()), Some(solution()));
}

#[test]
fn contradictory_grid_is_not_solved() {
    let mut bad = puzzle();
    bad[0][2] = 5;
    assert_eq!(solve_grid(&bad), None);
    assert!(!solve_sudoku(&bad));
}

#[test]
fn duplicate_in_row_fails_validity() {
    let mut g = puzzle();
    g[0][8] = 5;
    let row = get_row(&g, 0);
    assert!(!is_vec_valid(&row));
    assert!(!is_loc_valid(&g, 8, 0));
    assert!(is_loc_valid(&puzzle(), 8, 0));
    assert!(is_vec_valid(&vec![0, 0, 1, 2, 0, 3]));
    assert!(!is_vec_valid(&vec![4, 0, 4]));
}

#[test]
fn duplicate_in_subgrid_fails_validity() {
    let mut g = puzzle();
    g[2][0] = 3;
    assert!(!is_loc_valid(&g, 0, 2));
}

#[test]
fn carving_every_cell_with_too_few_attempts_reports_failure() {
    let filled = solution();
    assert_eq!(generate_sudoku_to_solve(&filled, 81, 50), None);
}

#[test]
fn geometry_reads() {
    let p = puzzle();
    assert_eq!(get_row(&p, 1), vec![6, 0, 0, 1, 9, 5, 0, 0, 0]);
    assert_eq!(get_column(&p, 0), vec![5, 6, 0, 8, 4, 7, 0, 0, 0]);
    assert_eq!(get_subgrid(&p, 0, 3, 0, 3), vec![5, 3, 0, 6, 0, 0, 0, 9, 8]);
    assert_eq!(get_subgrid(&p, 7, 9, 3, 5), vec![4, 1, 0, 8]);
    assert_eq!(get_subgrid(&p, 2, 5, 4, 4), Vec::<i32>::new());
    assert_eq!(get_subgrid_coor(4, 7), (6, 3, 9, 6));
    assert_eq!(get_subgrid_coor(0, 3), (3, 0, 6, 3));
    assert_eq!(get_subgrid_coor(0, 0), (0, 0, 3, 3));
}

#[test]
fn empty_fields_in_row_major_order() {
    let mut g = solution();
    g[4][2] = 0;
    g[0][7] = 0;
    g[4][1] = 0;
    assert_eq!(get_all_empty_fields(&g), vec![(7, 0), (1, 4), (2, 4)]);
    assert_eq!(get_all_empty_fields(&solution()), Vec::<(usize, usize)>::new());
    assert_eq!(get_all_empty_fields(&puzzle()).len(), 51);
}

#[test]
fn common_values_of_three() {
    let mut c = common_numbers(&vec![1, 2, 3, 4, 2], &vec![2, 3, 4, 5], &vec![4, 2, 9]);
    c.sort();
    assert_eq!(c, vec![2, 4]);
    assert_eq!(common_numbers(&vec![1], &vec![2], &vec![1]), Vec::<i32>::new());
}

#[test]
fn fill_row_rotates_values() {
    let g = fill_row(empty_grid(), &vec![1, 2, 3, 4, 5, 6, 7, 8, 9], 4, 3);
    assert_eq!(g[4], vec![7, 8, 9, 1, 2, 3, 4, 5, 6]);
    assert_eq!(g[3], vec![0; 9]);
}

#[test]
fn incomplete_grid_is_not_solved() {
    assert!(!check_if_sudoku_solved(&puzzle()));
    assert!(!check_if_sudoku_solved(&empty_grid()));
    assert!(check_if_sudoku_solved(&solution()));
    let mut wrong = solution();
    wrong[0][0] = 3;
    wrong[0][1] = 5;
    assert!(!check_if_sudoku_solved(&wrong));
}

#[test]
fn two_unique_numbers_differ() {
    for _ in 0..100 {
        let (a, b) = generate_two_unique_random_numbers(3, 6);
        assert!(a != b);
        assert!((3..6).contains(&a) && (3..6).contains(&b));
    }
}

#[test]
fn all_digits_present() {
    assert!(contains_all_digits(&vec![9, 8, 7, 6, 5, 4, 3, 2, 1]));
    assert!(!contains_all_digits(&vec![9, 8, 7, 6, 5, 4, 3, 2, 2]));
}

#[test]
fn consistent_but_unsolvable_grid_is_refused() {
    let mut g = empty_grid();
    for c in 0..8 {
        g[0][c] = c as i32 + 1;
    }
    g[1][8] = 9;
    assert!(is_loc_valid(&g, 8, 1));
    assert_eq!(solve_grid(&g), None);
    assert!(!solve_sudoku(&g));
}

#[test]
fn empty_grid_is_solvable() {
    let t = solve_grid(&empty_grid()).expect("an empty grid has a solution");
    assert!(check_if_sudoku_solved(&t));
    assert!(all_units_exactly_once(&t));
}

#[test]
fn carving_more_cells_than_are_filled_reports_failure() {
    let mut short = solution();
    for c in 0..9 {
        short[4][c] = 0;
    }
    assert_eq!(generate_sudoku_to_solve(&short, 81, 3000), None);
}

#[test]
fn carving_keeps_given_empties() {
    let mut short = solution();
    for c in 0..9 {
        short[4][c] = 0;
    }
    let carved = generate_sudoku_to_solve(&short, 5, 100_000).expect("five more cells can be emptied");
    assert_eq!(zeros(&carved), 14);
    assert!(solve_sudoku(&carved));
}

#[test]
fn blanking_a_cell_of_a_solved_grid_keeps_it_out() {
    let mut g = solution();
    assert!(try_blank_cell(&mut g, 2, 7));
    assert_eq!(g[2][7], 0);
    assert_eq!(zeros(&g), 1);
    assert!(!try_blank_cell(&mut g, 2, 7));
    assert_eq!(zeros(&g), 1);
}

#[test]
fn blanking_is_refused_where_no_solution_remains() {
    let mut g = puzzle();
    g[0][2] = 5;
    let before = g.clone();
    assert!(!try_blank_cell(&mut g, 0, 0));
    assert_eq!(g, before);
}

#[test]
fn band_exchanges_move_whole_bands() {
    let g = solution();
    let rows = flip_row_band(g.clone(), 0, 2);
    assert_eq!(rows[0..3], g[6..9]);
    assert_eq!(rows[6..9], g[0..3]);
    assert_eq!(rows[3..6], g[3..6]);
    assert!(check_if_sudoku_solved(&rows));
    let cols = flip_column_band(g.clone(), 1, 2);
    for r in 0..9 {
        assert_eq!(cols[r][3..6], g[r][6..9]);
        assert_eq!(cols[r][6..9], g[r][3..6]);
        assert_eq!(cols[r][0..3], g[r][0..3]);
    }
}

#[test]
fn band_shuffles_never_return_the_input() {
    let g = solution();
    for _ in 0..10 {
        assert_ne!(flip_grid_rows(g.clone()), g);
        assert_ne!(flip_grid_columns(g.clone()), g);
        assert_ne!(flip_rows(g.clone(), 5, 0, 2), g);
    }
}
