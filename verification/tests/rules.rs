use txt2048::spawn::tile_for_draw;
use txt2048::Board;
use txt2048::Dir;

fn board_of(size: usize, cells: &[u32]) -> Board {
    assert_eq!(cells.len(), size * size);
    let mut board = Board::new(size);
    for (i, value) in cells.iter().enumerate() {
        board.set_cell(i % size, i / size, *value);
    }
    board
}

fn moved(size: usize, cells: &[u32], direction: Dir) -> (bool, Vec<u32>) {
    let mut board = board_of(size, cells);
    let changed = board.move_dir(direction);
    (changed, board.get_cells().clone())
}

fn no_move_changes(size: usize, cells: &[u32]) -> bool {
    !moved(size, cells, Dir::Left).0
        && !moved(size, cells, Dir::Right).0
        && !moved(size, cells, Dir::Up).0
        && !moved(size, cells, Dir::Down).0
}

#[test]
fn new_board_is_empty() {
    let board = Board::new(3);
    assert_eq!(board.size(), 3);
    assert_eq!(board.get_cells(), &vec![0; 9]);
    assert_eq!(board.get_max_num(), 0);
    assert!(!board.check_win());
    assert!(!board.check_game_over());
}

#[test]
fn cells_are_row_major() {
    let mut board = Board::new(3);
    board.set_cell(1, 2, 4);
    board.set_cell(2, 0, 8);
    assert_eq!(board.get_cells(), &vec![0, 0, 8, 0, 0, 0, 0, 4, 0]);
    assert_eq!(board.get_cell(1, 2), 4);
    assert_eq!(board.get_cell(2, 0), 8);
    assert_eq!(board.get_cell(0, 0), 0);
}

#[test]
fn set_cell_raises_the_largest_value() {
    let mut board = Board::new(2);
    board.set_cell(0, 0, 16);
    assert_eq!(board.get_max_num(), 16);
    board.set_cell(0, 0, 2);
    assert_eq!(board.get_max_num(), 16);
    board.set_cell(0, 0, 0);
    assert_eq!(board.get_max_num(), 16);
    assert_eq!(board.get_cells(), &vec![0, 0, 0, 0]);
}

#[test]
fn init_spawns_two_tiles() {
    for size in 2..7 {
        for _ in 0..20 {
            let mut board = Board::new(size);
            board.init();
            let tiles: Vec<u32> = board.get_cells().iter().copied().filter(|v| *v != 0).collect();
            assert_eq!(tiles.len(), 2);
            for tile in tiles {
                assert!(tile == 2 || tile == 4 || tile == 8);
            }
            assert!(board.get_max_num() <= 8);
            assert!(board.get_max_num() >= 2);
        }
    }
}

#[test]
fn init_on_a_single_cell() {
    let mut board = Board::new(1);
    board.init();
    let value = board.get_cell(0, 0);
    assert!(value == 2 || value == 4 || value == 8);
    assert_eq!(board.get_max_num(), value);
}

#[test]
fn draws_give_2_4_8() {
    assert_eq!(tile_for_draw(0), 2);
    assert_eq!(tile_for_draw(1), 4);
    assert_eq!(tile_for_draw(2), 8);
    assert_eq!(tile_for_draw(7), 8);
}

#[test]
fn spawn_with_draws_is_exact() {
    let mut board = board_of(2, &[2, 0, 0, 4]);
    assert!(board.try_add_number_with(1, 2));
    assert_eq!(board.get_cells(), &vec![2, 0, 8, 4]);
    assert_eq!(board.get_max_num(), 8);
    assert!(board.try_add_number_with(0, 0));
    assert_eq!(board.get_cells(), &vec![2, 2, 8, 4]);
    assert_eq!(board.get_max_num(), 8);
    assert!(!board.try_add_number_with(0, 1));
    assert_eq!(board.get_cells(), &vec![2, 2, 8, 4]);
}

#[test]
fn spawn_with_draws_counts_round() {
    let mut board = board_of(2, &[0, 2, 0, 0]);
    // three empty cells: 0, 2, 3; draw 4 picks the second
    assert!(board.try_add_number_with(4, 1));
    assert_eq!(board.get_cells(), &vec![0, 2, 4, 0]);
}

#[test]
fn spawn_on_full_board_changes_nothing() {
    let mut board = board_of(2, &[2, 4, 8, 16]);
    assert!(!board.try_add_number());
    assert_eq!(board.get_cells(), &vec![2, 4, 8, 16]);
    assert_eq!(board.get_max_num(), 16);
}

#[test]
fn spawn_fills_one_empty_cell() {
    for _ in 0..50 {
        let mut board = board_of(3, &[2, 0, 4, 0, 8, 0, 16, 0, 32]);
        assert!(board.try_add_number());
        let cells = board.get_cells().clone();
        let before = [2, 0, 4, 0, 8, 0, 16, 0, 32];
        let mut changed = 0;
        for i in 0..9 {
            if cells[i] != before[i] {
                changed += 1;
                assert_eq!(before[i], 0);
                assert!(cells[i] == 2 || cells[i] == 4 || cells[i] == 8);
            }
        }
        assert_eq!(changed, 1);
        assert_eq!(board.get_max_num(), 32);
    }
}

#[test]
fn spawn_reaches_every_cell_and_value() {
    let mut cells_hit = [false; 4];
    let mut values_hit = [false; 3];
    for _ in 0..400 {
        let mut board = Board::new(2);
        assert!(board.try_add_number());
        for (i, value) in board.get_cells().iter().enumerate() {
            match *value {
                0 => {}
                2 => {
                    cells_hit[i] = true;
                    values_hit[0] = true;
                }
                4 => {
                    cells_hit[i] = true;
                    values_hit[1] = true;
                }
                8 => {
                    cells_hit[i] = true;
                    values_hit[2] = true;
                }
                other => panic!("spawned {}", other),
            }
        }
    }
    assert_eq!(cells_hit, [true; 4]);
    assert_eq!(values_hit, [true; 3]);
}

#[test]
fn left_collapse_rows() {
    let (changed, cells) = moved(
        4,
        &[2, 2, 0, 0, 2, 4, 2, 0, 0, 0, 0, 0, 0, 0, 0, 0],
        Dir::Left,
    );
    assert!(changed);
    assert_eq!(cells, vec![4, 0, 0, 0, 2, 4, 2, 0, 0, 0, 0, 0, 0, 0, 0, 0]);
    let (changed, cells) = moved(
        4,
        &[0, 0, 0, 0, 2, 4, 2, 0, 0, 0, 0, 0, 0, 0, 0, 0],
        Dir::Left,
    );
    assert!(!changed);
    assert_eq!(cells, vec![0, 0, 0, 0, 2, 4, 2, 0, 0, 0, 0, 0, 0, 0, 0, 0]);
}

#[test]
fn merged_tile_does_not_merge_again() {
    let (_, cells) = moved(
        4,
        &[4, 4, 8, 0, 2, 2, 4, 0, 2, 2, 2, 2, 4, 2, 2, 0],
        Dir::Left,
    );
    assert_eq!(cells, vec![8, 8, 0, 0, 4, 4, 0, 0, 4, 4, 0, 0, 4, 4, 0, 0]);
    let (_, cells) = moved(
        4,
        &[4, 4, 8, 0, 2, 2, 4, 0, 2, 2, 2, 2, 4, 2, 2, 0],
        Dir::Right,
    );
    assert_eq!(cells, vec![0, 0, 8, 8, 0, 0, 4, 4, 0, 0, 4, 4, 0, 0, 4, 4]);
}

#[test]
fn three_equal_tiles_merge_at_the_edge() {
    let (_, cells) = moved(3, &[2, 2, 2, 0, 0, 0, 0, 0, 0], Dir::Left);
    assert_eq!(cells, vec![4, 2, 0, 0, 0, 0, 0, 0, 0]);
    let (_, cells) = moved(3, &[2, 2, 2, 0, 0, 0, 0, 0, 0], Dir::Right);
    assert_eq!(cells, vec![0, 2, 4, 0, 0, 0, 0, 0, 0]);
}

#[test]
fn down_stacks_a_column() {
    let (changed, cells) = moved(
        4,
        &[2, 0, 0, 0, 0, 0, 0, 0, 8, 0, 0, 0, 4, 0, 0, 0],
        Dir::Down,
    );
    assert!(changed);
    assert_eq!(cells, vec![0, 0, 0, 0, 2, 0, 0, 0, 8, 0, 0, 0, 4, 0, 0, 0]);
}

#[test]
fn up_and_down_merge_columns() {
    let (_, cells) = moved(3, &[2, 4, 0, 2, 4, 8, 4, 0, 8], Dir::Up);
    assert_eq!(cells, vec![4, 8, 16, 4, 0, 0, 0, 0, 0]);
    let (_, cells) = moved(3, &[2, 4, 0, 2, 4, 8, 4, 0, 8], Dir::Down);
    assert_eq!(cells, vec![0, 0, 0, 4, 0, 0, 4, 8, 16]);
}

#[test]
fn move_on_two_by_two_with_one_empty() {
    let mut board = board_of(2, &[2, 0, 4, 8]);
    assert!(!board.move_dir(Dir::Left));
    assert!(board.move_dir(Dir::Right));
    assert_eq!(board.get_cells(), &vec![0, 2, 4, 8]);
}

#[test]
fn move_on_two_by_two_with_equal_column() {
    assert!(!moved(2, &[2, 8, 4, 8], Dir::Left).0);
    assert!(!moved(2, &[2, 8, 4, 8], Dir::Right).0);
    let (changed, cells) = moved(2, &[2, 8, 4, 8], Dir::Up);
    assert!(changed);
    assert_eq!(cells, vec![2, 16, 4, 0]);
    let (changed, cells) = moved(2, &[2, 8, 4, 8], Dir::Down);
    assert!(changed);
    assert_eq!(cells, vec![2, 0, 4, 16]);
}

#[test]
fn move_without_change_leaves_the_board() {
    let start = [2, 4, 0, 0, 8, 0, 0, 0, 16, 2, 4, 0, 2, 0, 0, 0];
    let mut board = board_of(4, &start);
    let max = board.get_max_num();
    assert!(!board.move_dir(Dir::Left));
    assert_eq!(board.get_cells(), &start.to_vec());
    assert_eq!(board.get_max_num(), max);
}

#[test]
fn move_on_empty_board_changes_nothing() {
    for direction in [Dir::Left, Dir::Right, Dir::Up, Dir::Down] {
        let (changed, cells) = moved(3, &[0; 9], direction);
        assert!(!changed);
        assert_eq!(cells, vec![0; 9]);
    }
}

#[test]
fn move_keeps_the_sum() {
    let start = [2, 2, 4, 4, 8, 0, 8, 2, 0, 0, 2, 2, 16, 16, 16, 16];
    let sum: u32 = start.iter().sum();
    for direction in [Dir::Left, Dir::Right, Dir::Up, Dir::Down] {
        let (changed, cells) = moved(4, &start, direction);
        assert!(changed);
        assert_eq!(cells.iter().sum::<u32>(), sum);
    }
}

#[test]
fn move_raises_the_largest_value() {
    let mut board = board_of(2, &[4, 4, 0, 0]);
    assert_eq!(board.get_max_num(), 4);
    assert!(board.move_dir(Dir::Left));
    assert_eq!(board.get_max_num(), 8);
    assert!(board.move_dir(Dir::Right));
    assert_eq!(board.get_max_num(), 8);
}

#[test]
fn game_over_on_full_board_of_different_tiles() {
    assert!(board_of(2, &[2, 4, 8, 16]).check_game_over());
    assert!(board_of(3, &[2, 4, 2, 4, 2, 4, 2, 4, 2]).check_game_over());
    assert!(board_of(1, &[2]).check_game_over());
    // the last cell of a row and the first of the next are no neighbours
    assert!(board_of(2, &[2, 4, 4, 2]).check_game_over());
    assert!(board_of(3, &[2, 4, 8, 8, 2, 4, 4, 8, 2]).check_game_over());
}

#[test]
fn game_not_over_with_empty_cell_or_equal_neighbours() {
    assert!(!board_of(2, &[2, 0, 4, 8]).check_game_over());
    assert!(!board_of(2, &[2, 8, 4, 8]).check_game_over());
    assert!(!board_of(2, &[2, 2, 4, 8]).check_game_over());
    assert!(!board_of(1, &[0]).check_game_over());
}

#[test]
fn game_over_agrees_with_four_moves() {
    let boards: Vec<(usize, Vec<u32>)> = vec![
        (1, vec![2]),
        (2, vec![2, 4, 8, 16]),
        (2, vec![2, 0, 4, 8]),
        (2, vec![2, 8, 4, 8]),
        (2, vec![2, 2, 4, 8]),
        (2, vec![0, 0, 0, 2]),
        (3, vec![2, 4, 2, 4, 2, 4, 2, 4, 2]),
        (3, vec![2, 4, 8, 8, 2, 4, 4, 8, 2]),
        (3, vec![2, 4, 8, 16, 32, 64, 128, 256, 0]),
        (3, vec![2, 4, 8, 16, 32, 64, 128, 256, 256]),
        (4, vec![2, 4, 2, 4, 4, 2, 4, 2, 2, 4, 2, 4, 4, 2, 4, 2]),
        (4, vec![2, 4, 2, 4, 4, 2, 4, 2, 2, 4, 2, 4, 4, 2, 4, 4]),
    ];
    for (size, cells) in boards {
        let over = board_of(size, &cells).check_game_over();
        assert_eq!(over, no_move_changes(size, &cells), "{:?}", cells);
    }
}

#[test]
fn win_at_2048() {
    let mut board = board_of(2, &[1024, 1024, 0, 0]);
    assert!(!board.check_win());
    assert!(board.move_dir(Dir::Left));
    assert_eq!(board.get_cells(), &vec![2048, 0, 0, 0]);
    assert!(board.check_win());
}

#[test]
fn win_stays() {
    let mut board = board_of(2, &[2048, 2048, 0, 0]);
    assert!(board.check_win());
    assert!(board.move_dir(Dir::Right));
    assert_eq!(board.get_cells(), &vec![0, 4096, 0, 0]);
    assert!(board.check_win());
    board.set_cell(1, 0, 0);
    assert!(board.check_win());
    assert_eq!(board.get_max_num(), 4096);
}

#[test]
fn no_win_below_2048() {
    let board = board_of(2, &[1024, 512, 256, 128]);
    assert!(!board.check_win());
}
