use game2048::{Board, Direction, MoveEvent, Tile};

fn empty_board(size: usize) -> Board {
    Board { size, cells: vec![None; size * size], score: 0 }
}

fn put(board: &mut Board, row: usize, col: usize, value: u32) {
    board.set(row, col, Some(Tile::new(value)));
}

fn value_at(board: &Board, row: usize, col: usize) -> Option<u32> {
    board.get(row, col).as_ref().map(|t| t.value)
}

fn row_values(board: &Board, row: usize) -> Vec<Option<u32>> {
    (0..board.size).map(|c| value_at(board, row, c)).collect()
}

fn col_values(board: &Board, col: usize) -> Vec<Option<u32>> {
    (0..board.size).map(|r| value_at(board, r, col)).collect()
}

fn tile_count(board: &Board) -> usize {
    board.cells.iter().filter(|c| c.is_some()).count()
}

#[test]
fn merge_pair_slides_left_with_events() {
    let mut board = empty_board(4);
    put(&mut board, 0, 0, 2);
    put(&mut board, 0, 1, 2);
    put(&mut board, 0, 2, 4);

    let (changed, events) = board.slide_with_animations(Direction::Left);

    assert!(changed);
    assert_eq!(row_values(&board, 0), vec![Some(4), Some(4), None, None]);
    assert_eq!(board.score, 4);
    assert_eq!(
        events,
        vec![
            MoveEvent {
                from_row: 0,
                from_col: 0,
                to_row: 0,
                to_col: 0,
                value: 2,
                merged_into_value: Some(4),
            },
            MoveEvent {
                from_row: 0,
                from_col: 1,
                to_row: 0,
                to_col: 0,
                value: 2,
                merged_into_value: Some(4),
            },
            MoveEvent {
                from_row: 0,
                from_col: 2,
                to_row: 0,
                to_col: 1,
                value: 4,
                merged_into_value: None,
            },
        ]
    );
}

#[test]
fn gap_pair_slides_right() {
    let mut board = empty_board(4);
    put(&mut board, 0, 0, 2);
    put(&mut board, 0, 3, 2);

    let (changed, _events) = board.slide_with_animations(Direction::Right);

    assert!(changed);
    assert_eq!(row_values(&board, 0), vec![None, None, None, Some(4)]);
    assert_eq!(board.score, 4);
}

#[test]
fn packed_alternating_row_is_blocked() {
    let mut board = empty_board(4);
    put(&mut board, 0, 0, 2);
    put(&mut board, 0, 1, 4);
    put(&mut board, 0, 2, 2);
    put(&mut board, 0, 3, 4);
    let before = board.clone();

    let (changed, events) = board.slide_with_animations(Direction::Left);

    assert!(!changed);
    assert!(events.is_empty());
    assert_eq!(board.score, 0);
    assert_eq!(board, before);
}

#[test]
fn blocked_slide_spawns_nothing() {
    let mut board = empty_board(4);
    put(&mut board, 0, 0, 2);
    put(&mut board, 0, 1, 4);
    put(&mut board, 0, 2, 2);
    put(&mut board, 0, 3, 4);
    let before = board.clone();

    let moved = board.slide(Direction::Left);

    assert!(!moved);
    assert_eq!(board, before);
    assert_eq!(tile_count(&board), 4);
}

#[test]
fn three_equal_tiles_merge_only_once() {
    let mut board = empty_board(4);
    put(&mut board, 0, 0, 2);
    put(&mut board, 0, 1, 2);
    put(&mut board, 0, 2, 2);

    let (changed, _events) = board.slide_with_animations(Direction::Left);

    assert!(changed);
    assert_eq!(row_values(&board, 0), vec![Some(4), Some(2), None, None]);
    assert_eq!(board.score, 4);
}

#[test]
fn full_line_of_equal_tiles_merges_pairwise() {
    let mut board = empty_board(4);
    for c in 0..4 {
        put(&mut board, 2, c, 2);
    }

    let (changed, _events) = board.slide_with_animations(Direction::Left);

    assert!(changed);
    assert_eq!(row_values(&board, 2), vec![Some(4), Some(4), None, None]);
    assert_eq!(board.score, 8);
}

#[test]
fn column_pair_slides_down() {
    let mut board = empty_board(4);
    put(&mut board, 1, 2, 2);
    put(&mut board, 3, 2, 2);

    let (changed, _events) = board.slide_with_animations(Direction::Down);

    assert!(changed);
    assert_eq!(col_values(&board, 2), vec![None, None, None, Some(4)]);
    assert_eq!(board.score, 4);
}

#[test]
fn column_slide_up_emits_column_events() {
    let mut board = empty_board(4);
    put(&mut board, 2, 1, 8);

    let (changed, events) = board.slide_with_animations(Direction::Up);

    assert!(changed);
    assert_eq!(col_values(&board, 1), vec![Some(8), None, None, None]);
    assert_eq!(board.score, 0);
    assert_eq!(
        events,
        vec![MoveEvent {
            from_row: 2,
            from_col: 1,
            to_row: 0,
            to_col: 1,
            value: 8,
            merged_into_value: None,
        }]
    );
}

#[test]
fn right_slide_reports_grid_coordinates() {
    let mut board = empty_board(4);
    put(&mut board, 0, 0, 4);
    put(&mut board, 0, 2, 2);
    put(&mut board, 0, 3, 2);

    let (changed, events) = board.slide_with_animations(Direction::Right);

    assert!(changed);
    assert_eq!(row_values(&board, 0), vec![None, None, Some(4), Some(4)]);
    assert_eq!(board.score, 4);
    assert_eq!(
        events,
        vec![
            MoveEvent {
                from_row: 0,
                from_col: 3,
                to_row: 0,
                to_col: 3,
                value: 2,
                merged_into_value: Some(4),
            },
            MoveEvent {
                from_row: 0,
                from_col: 2,
                to_row: 0,
                to_col: 3,
                value: 2,
                merged_into_value: Some(4),
            },
            MoveEvent {
                from_row: 0,
                from_col: 0,
                to_row: 0,
                to_col: 2,
                value: 4,
                merged_into_value: None,
            },
        ]
    );
}

#[test]
fn down_slide_merges_and_skips_stationary_tiles() {
    let mut board = empty_board(4);
    put(&mut board, 0, 1, 8);
    put(&mut board, 2, 1, 8);
    put(&mut board, 3, 1, 2);

    let (changed, events) = board.slide_with_animations(Direction::Down);

    assert!(changed);
    assert_eq!(col_values(&board, 1), vec![None, None, Some(16), Some(2)]);
    assert_eq!(board.score, 16);
    // the 2 already sits on the edge and emits nothing
    assert_eq!(
        events,
        vec![
            MoveEvent {
                from_row: 2,
                from_col: 1,
                to_row: 2,
                to_col: 1,
                value: 8,
                merged_into_value: Some(16),
            },
            MoveEvent {
                from_row: 0,
                from_col: 1,
                to_row: 2,
                to_col: 1,
                value: 8,
                merged_into_value: Some(16),
            },
        ]
    );
}

#[test]
fn lines_compact_independently() {
    let mut board = empty_board(4);
    put(&mut board, 0, 3, 2);
    put(&mut board, 1, 1, 2);
    put(&mut board, 1, 2, 2);
    put(&mut board, 3, 0, 4);

    let (changed, _events) = board.slide_with_animations(Direction::Left);

    assert!(changed);
    assert_eq!(row_values(&board, 0), vec![Some(2), None, None, None]);
    assert_eq!(row_values(&board, 1), vec![Some(4), None, None, None]);
    assert_eq!(row_values(&board, 2), vec![None, None, None, None]);
    assert_eq!(row_values(&board, 3), vec![Some(4), None, None, None]);
    assert_eq!(board.score, 4);
}

#[test]
fn merge_at_stationary_edge_counts_as_change() {
    let mut board = empty_board(4);
    put(&mut board, 0, 0, 2);
    put(&mut board, 0, 1, 2);

    let (changed, events) = board.slide_with_animations(Direction::Left);

    assert!(changed);
    assert_eq!(row_values(&board, 0), vec![Some(4), None, None, None]);
    assert_eq!(events.len(), 2);
    assert!(events.iter().all(|e| e.merged_into_value == Some(4)));
}

#[test]
fn successful_slide_spawns_one_tile() {
    let mut board = empty_board(4);
    put(&mut board, 0, 3, 2);

    let moved = board.slide(Direction::Left);

    assert!(moved);
    assert_eq!(value_at(&board, 0, 0), Some(2));
    assert_eq!(tile_count(&board), 2);
}

#[test]
fn spawn_fills_an_empty_cell_with_base_or_double_value() {
    let mut board = empty_board(2);
    let spawned = board.spawn_random_tile();

    assert!(spawned);
    assert_eq!(tile_count(&board), 1);
    let v = board.cells.iter().flatten().next().unwrap().value;
    assert!(v == 2 || v == 4);
    assert_eq!(board.score, 0);
}

#[test]
fn spawn_on_full_grid_is_a_refusal_not_an_error() {
    let mut board = empty_board(2);
    put(&mut board, 0, 0, 2);
    put(&mut board, 0, 1, 4);
    put(&mut board, 1, 0, 8);
    put(&mut board, 1, 1, 16);
    let before = board.clone();

    let spawned = board.spawn_random_tile();

    assert!(!spawned);
    assert_eq!(board, before);
}

#[test]
fn empty_positions_come_in_row_major_order() {
    let mut board = empty_board(3);
    put(&mut board, 0, 1, 2);
    put(&mut board, 2, 0, 4);

    let empties = board.empty_positions();

    assert_eq!(empties, vec![(0, 0), (0, 2), (1, 0), (1, 1), (1, 2), (2, 1), (2, 2)]);
}

#[test]
fn new_board_has_two_seed_tiles_and_zero_score() {
    let board = Board::new(4);

    assert_eq!(board.size, 4);
    assert_eq!(board.cells.len(), 16);
    assert_eq!(board.score, 0);
    assert_eq!(tile_count(&board), 2);
    assert!(board.cells.iter().flatten().all(|t| t.value == 2 || t.value == 4));
    assert!(board.cells.iter().flatten().all(|t| !t.merged));
}

#[test]
fn can_move_with_any_empty_cell() {
    let mut board = empty_board(2);
    put(&mut board, 0, 0, 2);
    assert!(board.can_move());
}

#[test]
fn can_move_on_full_grid_needs_an_equal_adjacent_pair() {
    let mut board = empty_board(2);
    put(&mut board, 0, 0, 2);
    put(&mut board, 0, 1, 4);
    put(&mut board, 1, 0, 4);
    put(&mut board, 1, 1, 2);
    assert!(!board.can_move());

    // an equal vertical pair flips it
    put(&mut board, 1, 0, 2);
    assert!(board.can_move());
}

#[test]
fn win_needs_a_tile_at_the_threshold() {
    let mut board = empty_board(4);
    put(&mut board, 1, 1, 1024);
    board.score = 1000000;
    assert!(!board.is_won());

    put(&mut board, 3, 2, 2048);
    assert!(board.is_won());
}

#[test]
fn win_counts_values_above_the_threshold() {
    let mut board = empty_board(4);
    put(&mut board, 0, 0, 4096);
    assert!(board.is_won());
}

#[test]
fn reset_merged_flags_clears_every_flag() {
    let mut board = empty_board(2);
    board.set(0, 0, Some(Tile { value: 2, merged: true }));
    board.set(1, 1, Some(Tile { value: 4, merged: true }));

    board.reset_merged_flags();

    assert!(board.cells.iter().flatten().all(|t| !t.merged));
    assert_eq!(value_at(&board, 0, 0), Some(2));
    assert_eq!(value_at(&board, 1, 1), Some(4));
}

#[test]
fn score_accumulates_exactly_the_merged_values() {
    let mut board = empty_board(4);
    put(&mut board, 0, 0, 2);
    put(&mut board, 0, 1, 2);
    put(&mut board, 1, 0, 4);
    put(&mut board, 1, 1, 4);

    let (_, _) = board.slide_with_animations(Direction::Left);

    // one merge to 4 in row 0, one merge to 8 in row 1
    assert_eq!(board.score, 12);
}
