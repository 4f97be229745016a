use game2048::{Board, Direction, GameService, Tile};

fn empty_board(size: usize) -> Board {
    Board { size, cells: vec![None; size * size], score: 0 }
}

fn put(board: &mut Board, row: usize, col: usize, value: u32) {
    board.set(row, col, Some(Tile::new(value)));
}

fn tile_count(board: &Board) -> usize {
    board.cells.iter().filter(|c| c.is_some()).count()
}

#[test]
fn new_session_starts_with_two_tiles_and_zero_score() {
    let service = GameService::new(4);
    assert_eq!(service.score(), 0);
    assert_eq!(service.board().size, 4);
    assert_eq!(tile_count(service.board()), 2);
    assert!(!service.is_won());
}

#[test]
fn score_is_monotone_across_a_sequence_of_moves() {
    let mut service = GameService::new(4);
    let mut last = service.score();
    let dirs = [
        Direction::Left,
        Direction::Down,
        Direction::Right,
        Direction::Up,
        Direction::Left,
        Direction::Down,
        Direction::Right,
        Direction::Up,
    ];
    for dir in dirs {
        service.slide(dir);
        let now = service.score();
        assert!(now >= last);
        last = now;
    }
}

#[test]
fn slide_with_events_reports_change_exactly_when_events_come_back() {
    let mut service = GameService::new(4);
    for dir in [Direction::Left, Direction::Up, Direction::Right, Direction::Down] {
        let (changed, events) = service.slide_with_events(dir);
        assert_eq!(changed, !events.is_empty());
    }
}

#[test]
fn full_grid_without_pairs_is_over() {
    let mut board = empty_board(2);
    put(&mut board, 0, 0, 2);
    put(&mut board, 0, 1, 4);
    put(&mut board, 1, 0, 4);
    put(&mut board, 1, 1, 2);
    let service = GameService { board };
    assert!(service.is_over());
}

#[test]
fn one_empty_cell_keeps_the_game_alive() {
    let mut board = empty_board(2);
    put(&mut board, 0, 0, 2);
    put(&mut board, 0, 1, 4);
    put(&mut board, 1, 0, 4);
    let service = GameService { board };
    assert!(!service.is_over());
}

#[test]
fn one_equal_adjacent_pair_keeps_the_game_alive() {
    let mut board = empty_board(2);
    put(&mut board, 0, 0, 2);
    put(&mut board, 0, 1, 4);
    put(&mut board, 1, 0, 4);
    put(&mut board, 1, 1, 4);
    let service = GameService { board };
    assert!(!service.is_over());
}

#[test]
fn winning_is_independent_of_score_and_empty_cells() {
    let mut board = empty_board(4);
    put(&mut board, 2, 3, 2048);
    let service = GameService { board };
    assert_eq!(service.score(), 0);
    assert!(service.is_won());
}

#[test]
fn reset_reseeds_the_same_size_board() {
    let mut service = GameService::new(4);
    service.slide(Direction::Left);
    service.slide(Direction::Up);
    service.reset();
    assert_eq!(service.score(), 0);
    assert_eq!(service.board().size, 4);
    assert_eq!(tile_count(service.board()), 2);
}

#[test]
fn blocked_session_slide_changes_nothing() {
    let mut board = empty_board(4);
    put(&mut board, 0, 0, 2);
    put(&mut board, 0, 1, 4);
    put(&mut board, 0, 2, 2);
    put(&mut board, 0, 3, 4);
    let mut service = GameService { board };
    let before = service.board().clone();

    let moved = service.slide(Direction::Left);

    assert!(!moved);
    assert_eq!(*service.board(), before);
    assert_eq!(service.score(), 0);
}
