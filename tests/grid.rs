use smort::grid::{find_empty_box, is_valid, unsolve_board};

fn from_digits(s: &str) -> [i32; 81] {
    let mut b = [0i32; 81];
    for (i, ch) in s.chars().enumerate() {
        b[i] = ch.to_digit(10).unwrap() as i32;
    }
    b
}

#[test]
fn is_valid_row_example() {
    let mut grid = [0i32; 81];
    let row0 = [5, 3, 0, 0, 7, 0, 0, 0, 0];
    grid[..9].copy_from_slice(&row0);
    assert!(!is_valid(grid, 5, 0, 3));
    assert!(is_valid(grid, 4, 0, 3));
}

#[test]
fn is_valid_column_conflict() {
    let mut grid = [0i32; 81];
    grid[8 * 9 + 6] = 2;
    assert!(!is_valid(grid, 2, 0, 6));
    assert!(is_valid(grid, 3, 0, 6));
}

#[test]
fn is_valid_box_conflict() {
    let mut grid = [0i32; 81];
    grid[3 * 9 + 5] = 7;
    assert!(!is_valid(grid, 7, 4, 4));
    assert!(!is_valid(grid, 7, 5, 3));
    assert!(is_valid(grid, 7, 6, 4));
}

#[test]
fn is_valid_ignores_target_cell() {
    let mut grid = [0i32; 81];
    grid[4 * 9 + 4] = 5;
    assert!(is_valid(grid, 5, 4, 4));
    grid[8 * 9 + 8] = 9;
    assert!(is_valid(grid, 9, 8, 8));
}

#[test]
fn is_valid_empty_grid() {
    let grid = [0i32; 81];
    for v in 1..10 {
        assert!(is_valid(grid, v, 0, 0));
    }
}

#[test]
fn find_empty_box_first_in_row_major() {
    assert_eq!(find_empty_box([0; 81]), Some((0, 0)));
    let mut grid = [1i32; 81];
    grid[2 * 9 + 5] = 0;
    grid[7 * 9 + 1] = 0;
    assert_eq!(find_empty_box(grid), Some((2, 5)));
}

#[test]
fn find_empty_box_full_grid() {
    assert_eq!(find_empty_box([4; 81]), None);
}

#[test]
fn unsolve_clears_only_non_givens() {
    let mut grid = from_digits(
        "123456789456789123789123456214365897365897214897214365531642978642978531978531642",
    );
    let mut map = [false; 81];
    map[0] = true;
    map[40] = true;
    unsolve_board(&mut grid, map);
    for i in 0..81 {
        if i == 0 {
            assert_eq!(grid[i], 1);
        } else if i == 40 {
            assert_eq!(grid[i], 9);
        } else {
            assert_eq!(grid[i], 0);
        }
    }
}

#[test]
fn unsolve_twice_equals_once() {
    let full = from_digits(
        "346795812258431697971862543129576438835214769764389251517948326493627185682153974",
    );
    let mut map = [false; 81];
    for i in (0..81).step_by(4) {
        map[i] = true;
    }
    let mut once = full;
    unsolve_board(&mut once, map);
    let mut twice = full;
    unsolve_board(&mut twice, map);
    unsolve_board(&mut twice, map);
    assert_eq!(once, twice);
}
