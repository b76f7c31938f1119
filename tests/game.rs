use minesweeper::{Board, Cell, CellState, CellValue, Command, Error, Game, Point, Status};

fn board_with_mines(size: usize, mines: &[(usize, usize)]) -> Board {
    let mut board = Board::new(size);
    for &(x, y) in mines {
        board.grid[y][x] = Cell::bomb();
        board.bomb_coords.push(Point { x, y });
    }
    let _ = board.increment_numbers_around_bombs();
    board
}

fn states(game: &Game) -> Vec<String> {
    game.board
        .grid
        .iter()
        .map(|row| {
            row.iter()
                .map(|c| match c.state {
                    CellState::Default => '?',
                    CellState::Revealed => 'r',
                    CellState::Flagged => 'F',
                })
                .collect()
        })
        .collect()
}

#[test]
fn new_game_starts_at_corner_in_play() {
    let game = Game::new(board_with_mines(3, &[(1, 1)])).unwrap();
    assert_eq!(game.cursor_coord, Point { x: 0, y: 0 });
    assert_eq!(game.status, Status::Playing);
    assert_eq!(game.board.size, 3);
}

#[test]
fn new_game_rejects_empty_board() {
    assert!(matches!(Game::new(Board::new(0)), Err(Error::InvalidSize)));
}

#[test]
fn move_cursor_stops_at_edges() {
    let mut game = Game::new(board_with_mines(3, &[])).unwrap();
    game.move_cursor(&Point { x: -1, y: 0 });
    assert_eq!(game.cursor_coord, Point { x: 0, y: 0 });
    game.move_cursor(&Point { x: 1, y: 1 });
    game.move_cursor(&Point { x: 1, y: 0 });
    assert_eq!(game.cursor_coord, Point { x: 2, y: 1 });
    game.move_cursor(&Point { x: 1, y: 0 });
    assert_eq!(game.cursor_coord, Point { x: 2, y: 1 });
    game.move_cursor(&Point { x: 0, y: -2 });
    assert_eq!(game.cursor_coord, Point { x: 2, y: 1 });
}

#[test]
fn reveal_of_zero_cascades_to_the_numbered_border() {
    // Mine in the far corner: everything but the mine opens from (0, 0).
    let mut game = Game::new(board_with_mines(4, &[(3, 3)])).unwrap();
    game.reveal_selected();
    assert_eq!(states(&game), vec!["rrrr", "rrrr", "rrrr", "rrr?"]);
    assert_eq!(game.status, Status::Playing);
    assert!(game.has_won());
}

#[test]
fn reveal_stops_at_cells_next_to_mines() {
    // A wall of mines in column 2: the cascade from (0, 0) opens columns 0
    // and 1 (column 1 holds the numbers) and never reaches column 3.
    let mut game = Game::new(board_with_mines(4, &[(2, 0), (2, 1), (2, 2), (2, 3)])).unwrap();
    game.reveal_selected();
    assert_eq!(states(&game), vec!["rr??", "rr??", "rr??", "rr??"]);
    assert_eq!(game.board.grid[0][1].value, CellValue::Number(2));
    assert!(!game.has_won());
}

#[test]
fn reveal_of_a_number_opens_only_that_cell() {
    let mut game = Game::new(board_with_mines(3, &[(2, 2)])).unwrap();
    game.move_cursor(&Point { x: 1, y: 1 });
    game.reveal_selected();
    assert_eq!(states(&game), vec!["???", "?r?", "???"]);
}

#[test]
fn reveal_does_not_cross_flags() {
    let mut game = Game::new(board_with_mines(4, &[])).unwrap();
    for y in 0..4 {
        game.cursor_coord = Point { x: 1, y };
        game.toggle_flag();
    }
    game.cursor_coord = Point { x: 0, y: 0 };
    game.reveal_selected();
    assert_eq!(states(&game), vec!["rF??", "rF??", "rF??", "rF??"]);
}

#[test]
fn reveal_does_not_pass_through_revealed_cells() {
    let mut game = Game::new(board_with_mines(4, &[])).unwrap();
    for y in 0..4 {
        game.board.grid[y][1].state = CellState::Revealed;
    }
    game.reveal_from(Point { x: 0, y: 2 });
    assert_eq!(states(&game), vec!["rr??", "rr??", "rr??", "rr??"]);
}

#[test]
fn reveal_from_revealed_zero_spreads_again() {
    let mut game = Game::new(board_with_mines(3, &[])).unwrap();
    game.board.grid[1][1].state = CellState::Revealed;
    game.reveal_from(Point { x: 1, y: 1 });
    assert_eq!(states(&game), vec!["rrr", "rrr", "rrr"]);
}

#[test]
fn flagged_cell_is_not_revealed() {
    let mut game = Game::new(board_with_mines(3, &[(2, 2)])).unwrap();
    game.toggle_flag();
    assert_eq!(game.board.grid[0][0].state, CellState::Flagged);
    game.reveal_selected();
    assert_eq!(game.board.grid[0][0].state, CellState::Flagged);
    assert_eq!(states(&game), vec!["F??", "???", "???"]);
    assert_eq!(game.status, Status::Playing);
}

#[test]
fn toggle_flag_twice_restores_and_leaves_revealed_alone() {
    let mut game = Game::new(board_with_mines(3, &[(2, 2)])).unwrap();
    game.toggle_flag();
    game.toggle_flag();
    assert_eq!(game.board.grid[0][0].state, CellState::Default);
    game.reveal_selected();
    game.toggle_flag();
    assert_eq!(game.board.grid[0][0].state, CellState::Revealed);
}

#[test]
fn revealing_a_mine_loses() {
    let mut game = Game::new(board_with_mines(3, &[(0, 0), (2, 2)])).unwrap();
    game.reveal_selected();
    assert_eq!(game.status, Status::Lost);
    assert_eq!(game.board.grid[0][0].state, CellState::Revealed);
    assert_eq!(states(&game), vec!["r??", "???", "???"]);
}

#[test]
fn flagged_mine_is_not_revealed() {
    let mut game = Game::new(board_with_mines(3, &[(0, 0)])).unwrap();
    game.toggle_flag();
    game.reveal_selected();
    assert_eq!(game.status, Status::Playing);
    assert_eq!(game.board.grid[0][0].state, CellState::Flagged);
}

#[test]
fn has_won_needs_every_number_cell_revealed() {
    let mut game = Game::new(board_with_mines(2, &[(1, 1)])).unwrap();
    assert!(!game.has_won());
    for (x, y) in [(0, 0), (1, 0), (0, 1)] {
        game.board.grid[y][x].state = CellState::Revealed;
    }
    assert!(game.has_won());
    // Mines do not matter, revealed, flagged or hidden.
    game.board.grid[1][1].state = CellState::Flagged;
    assert!(game.has_won());
    game.board.grid[1][1].state = CellState::Revealed;
    assert!(game.has_won());
    // A flagged number cell is not revealed.
    game.board.grid[0][1].state = CellState::Flagged;
    assert!(!game.has_won());
}

#[test]
fn has_won_on_a_board_of_mines_only() {
    let game = Game::new(board_with_mines(1, &[(0, 0)])).unwrap();
    assert!(game.has_won());
}

#[test]
fn reset_after_loss_starts_a_new_round() {
    let mut game = Game::new(Board::new(4).populate(3).unwrap()).unwrap();
    let mine = game.board.bomb_coords[0];
    game.cursor_coord = mine;
    assert!(game.handle(Command::Reveal));
    assert_eq!(game.status, Status::Lost);
    // Only a restart or quit does anything now.
    assert!(game.handle(Command::Left));
    assert!(game.handle(Command::Flag));
    assert_eq!(game.status, Status::Lost);
    assert_eq!(game.cursor_coord, mine);
    assert!(game.handle(Command::Restart));
    assert_eq!(game.status, Status::Playing);
    assert_eq!(game.cursor_coord, Point { x: 0, y: 0 });
    assert_eq!(game.board.size, 4);
    assert_eq!(game.board.bomb_coords.len(), 3);
    assert!(game.board.grid.iter().all(|row| row.iter().all(|c| c.state == CellState::Default)));
    // Playable again.
    assert!(game.handle(Command::Flag));
    assert_eq!(game.board.grid[0][0].state, CellState::Flagged);
}

#[test]
fn reset_keeps_size_and_mine_count() {
    let mut game = Game::new(Board::new(5).populate(6).unwrap()).unwrap();
    game.cursor_coord = Point { x: 3, y: 2 };
    game.toggle_flag();
    game.reset();
    assert_eq!(game.cursor_coord, Point { x: 0, y: 0 });
    assert_eq!(game.status, Status::Playing);
    assert_eq!(game.board.size, 5);
    assert_eq!(game.board.bomb_coords.len(), 6);
    assert!(game.board.grid.iter().all(|row| row.iter().all(|c| c.state == CellState::Default)));
}

#[test]
fn handle_moves_flags_reveals_and_wins() {
    let mut game = Game::new(board_with_mines(2, &[(1, 1)])).unwrap();
    assert!(game.handle(Command::Right));
    assert_eq!(game.cursor_coord, Point { x: 1, y: 0 });
    assert!(game.handle(Command::Down));
    assert_eq!(game.cursor_coord, Point { x: 1, y: 1 });
    assert!(game.handle(Command::Flag));
    assert_eq!(game.board.grid[1][1].state, CellState::Flagged);
    assert!(game.handle(Command::Up));
    assert!(game.handle(Command::Reveal));
    assert_eq!(game.status, Status::Playing);
    assert!(game.handle(Command::Left));
    assert!(game.handle(Command::Reveal));
    assert!(game.handle(Command::Down));
    assert!(game.handle(Command::Other));
    assert_eq!(game.status, Status::Playing);
    assert!(game.handle(Command::Reveal));
    assert_eq!(game.status, Status::Won);
    assert!(!game.handle(Command::Quit));
}

#[test]
fn handle_quit_ends_the_session() {
    let mut game = Game::new(board_with_mines(3, &[(1, 1)])).unwrap();
    assert!(!game.handle(Command::Quit));
    assert_eq!(game.status, Status::Playing);
}
