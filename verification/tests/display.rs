use txt2048::dir::Dir;
use txt2048::display::{cell_width, dir_for_key, ends_row, get_digits, rows_spaced};
use txt2048::line::{collapse_line, MERGE_LIMIT};

#[test]
fn digits_of_numbers() {
    assert_eq!(get_digits(0), 0);
    assert_eq!(get_digits(1), 1);
    assert_eq!(get_digits(9), 1);
    assert_eq!(get_digits(10), 2);
    assert_eq!(get_digits(99), 2);
    assert_eq!(get_digits(100), 3);
    assert_eq!(get_digits(2048), 4);
    assert_eq!(get_digits(65536), 5);
    assert_eq!(get_digits(u32::MAX), 10);
}

#[test]
fn width_of_cells() {
    assert_eq!(cell_width(0), 0);
    assert_eq!(cell_width(8), 0);
    assert_eq!(cell_width(16), 2);
    assert_eq!(cell_width(128), 3);
    assert_eq!(cell_width(2048), 4);
    assert_eq!(cell_width(16384), 0);
}

#[test]
fn keys_and_directions() {
    assert!(matches!(dir_for_key('h'), Some(Dir::Left)));
    assert!(matches!(dir_for_key('j'), Some(Dir::Down)));
    assert!(matches!(dir_for_key('k'), Some(Dir::Up)));
    assert!(matches!(dir_for_key('l'), Some(Dir::Right)));
    assert!(dir_for_key('x').is_none());
    assert!(dir_for_key('H').is_none());
    assert!(dir_for_key('\n').is_none());
}

#[test]
fn reading_order_of_each_direction() {
    // 3 x 3, line 1
    let left: Vec<usize> = (0..3).map(|pos| Dir::Left.index(3, 1, pos)).collect();
    let right: Vec<usize> = (0..3).map(|pos| Dir::Right.index(3, 1, pos)).collect();
    let up: Vec<usize> = (0..3).map(|pos| Dir::Up.index(3, 1, pos)).collect();
    let down: Vec<usize> = (0..3).map(|pos| Dir::Down.index(3, 1, pos)).collect();
    assert_eq!(left, vec![3, 4, 5]);
    assert_eq!(right, vec![5, 4, 3]);
    assert_eq!(up, vec![1, 4, 7]);
    assert_eq!(down, vec![7, 4, 1]);
    assert_eq!(Dir::Left.index(1, 0, 0), 0);
    assert_eq!(Dir::Down.index(1, 0, 0), 0);
}

#[test]
fn collapse_of_lines() {
    assert_eq!(collapse_line(&vec![]), Vec::<u32>::new());
    assert_eq!(collapse_line(&vec![0]), vec![0]);
    assert_eq!(collapse_line(&vec![2]), vec![2]);
    assert_eq!(collapse_line(&vec![0, 0, 0, 0]), vec![0, 0, 0, 0]);
    assert_eq!(collapse_line(&vec![2, 2, 0, 0]), vec![4, 0, 0, 0]);
    assert_eq!(collapse_line(&vec![2, 4, 2, 0]), vec![2, 4, 2, 0]);
    assert_eq!(collapse_line(&vec![4, 4, 8, 0]), vec![8, 8, 0, 0]);
    assert_eq!(collapse_line(&vec![0, 0, 0, 2]), vec![2, 0, 0, 0]);
    assert_eq!(collapse_line(&vec![2, 0, 0, 2]), vec![4, 0, 0, 0]);
    assert_eq!(collapse_line(&vec![2, 0, 4, 2]), vec![2, 4, 2, 0]);
    assert_eq!(collapse_line(&vec![2, 2, 2, 2]), vec![4, 4, 0, 0]);
    assert_eq!(collapse_line(&vec![2, 2, 2, 2, 2]), vec![4, 4, 2, 0, 0]);
    assert_eq!(collapse_line(&vec![4, 2, 2, 8, 8, 16]), vec![4, 4, 16, 16, 0, 0]);
}

#[test]
fn collapse_at_the_limit() {
    assert_eq!(MERGE_LIMIT, u32::MAX / 2);
    assert_eq!(
        collapse_line(&vec![1 << 30, 1 << 30, 0]),
        vec![1 << 31, 0, 0]
    );
    assert_eq!(
        collapse_line(&vec![MERGE_LIMIT, MERGE_LIMIT]),
        vec![u32::MAX - 1, 0]
    );
}

#[test]
fn ends_of_rows() {
    let ends: Vec<bool> = (0..9).map(|i| ends_row(i, 3)).collect();
    assert_eq!(
        ends,
        vec![false, false, true, false, false, true, false, false, true]
    );
    assert!(ends_row(0, 1));
}

#[test]
fn spacing_of_rows() {
    assert!(!rows_spaced(0));
    assert!(!rows_spaced(64));
    assert!(!rows_spaced(99));
    assert!(rows_spaced(100));
    assert!(rows_spaced(128));
    assert!(rows_spaced(2048));
}
