use minesweeper::{Board, Cell, CellState, CellValue, Error, Point};

fn adjacent_mines(mines: &[Point], p: Point) -> i32 {
    let mut count = 0;
    for m in mines {
        let dx = m.x as i64 - p.x as i64;
        let dy = m.y as i64 - p.y as i64;
        if (dx, dy) != (0, 0) && dx.abs() <= 1 && dy.abs() <= 1 {
            count += 1;
        }
    }
    count
}

fn assert_generated(board: &Board, size: usize, mines: usize) {
    assert_eq!(board.size, size);
    assert_eq!(board.grid.len(), size);
    assert_eq!(board.bomb_coords.len(), mines);
    for (i, a) in board.bomb_coords.iter().enumerate() {
        assert!(a.x < size && a.y < size);
        for b in &board.bomb_coords[i + 1..] {
            assert_ne!(a, b);
        }
    }
    for y in 0..size {
        assert_eq!(board.grid[y].len(), size);
        for x in 0..size {
            let p = Point { x, y };
            let cell = board.grid[y][x];
            assert_eq!(cell.state, CellState::Default);
            if board.bomb_coords.contains(&p) {
                assert_eq!(cell.value, CellValue::Bomb);
            } else {
                assert_eq!(cell.value, CellValue::Number(adjacent_mines(&board.bomb_coords, p)));
            }
        }
    }
}

#[test]
fn new_works() {
    let board = Board::new(3);

    assert_eq!(board.bomb_coords, vec![]);
    assert_eq!(board.size, 3);
    assert_eq!(
        board.grid,
        vec![
            vec![Cell::number(0), Cell::number(0), Cell::number(0)],
            vec![Cell::number(0), Cell::number(0), Cell::number(0)],
            vec![Cell::number(0), Cell::number(0), Cell::number(0)]
        ]
    );
}

#[test]
fn place_bombs_works() {
    let mut board = Board::new(3);
    let _ = board.place_bombs(3);
    for coord in board.bomb_coords {
        assert_eq!(board.grid[coord.y][coord.x], Cell::bomb());
    }
}

#[test]
fn increment_numbers_around_bombs_works() {
    let mut board = Board {
        grid: vec![
            vec![Cell::bomb(), Cell::number(0), Cell::number(0)],
            vec![Cell::number(0), Cell::number(0), Cell::number(0)],
            vec![Cell::number(0), Cell::number(0), Cell::bomb()],
        ],
        size: 3,
        bomb_coords: vec![Point { x: 0, y: 0 }, Point { x: 2, y: 2 }],
    };

    let _ = board.increment_numbers_around_bombs();
    assert_eq!(
        board.grid,
        vec![
            vec![Cell::bomb(), Cell::number(1), Cell::number(0)],
            vec![Cell::number(1), Cell::number(2), Cell::number(1)],
            vec![Cell::number(0), Cell::number(1), Cell::bomb()],
        ],
    )
}

#[test]
fn place_bombs_rejects_more_mines_than_cells() {
    let mut board = Board::new(2);
    assert_eq!(board.place_bombs(5), Err(Error::InvalidMineCount));
    assert!(board.bomb_coords.is_empty());
}

#[test]
fn populate_rejects_more_mines_than_cells() {
    assert!(matches!(Board::new(3).populate(10), Err(Error::InvalidMineCount)));
    assert!(matches!(Board::new(0).populate(1), Err(Error::InvalidMineCount)));
}

#[test]
fn populate_places_exactly_the_mines_asked_for() {
    for (size, mines) in [(1, 0), (1, 1), (3, 0), (3, 2), (3, 9), (4, 5), (10, 8), (10, 100)] {
        let board = Board::new(size).populate(mines).unwrap();
        assert_generated(&board, size, mines);
    }
}

#[test]
fn populate_on_empty_board_with_no_mines() {
    let board = Board::new(0).populate(0).unwrap();
    assert_eq!(board.size, 0);
    assert!(board.grid.is_empty());
    assert!(board.bomb_coords.is_empty());
}

#[test]
fn numbers_count_adjacent_mines_on_corners_and_edges() {
    let mut board = Board::new(4);
    board.grid[0][3] = Cell::bomb();
    board.grid[1][3] = Cell::bomb();
    board.grid[3][0] = Cell::bomb();
    board.bomb_coords = vec![Point { x: 3, y: 0 }, Point { x: 3, y: 1 }, Point { x: 0, y: 3 }];
    let _ = board.increment_numbers_around_bombs();
    assert_eq!(board.to_string(), "0 0 2 X\n0 0 2 X\n1 1 1 1\nX 1 0 0");
}

#[test]
fn board_to_string_lists_values_row_by_row() {
    let board = Board {
        grid: vec![
            vec![Cell::bomb(), Cell::number(1), Cell::number(0)],
            vec![Cell::number(1), Cell::number(2), Cell::number(1)],
            vec![Cell::number(0), Cell::number(1), Cell::bomb()],
        ],
        size: 3,
        bomb_coords: vec![Point { x: 0, y: 0 }, Point { x: 2, y: 2 }],
    };
    assert_eq!(board.to_string(), "X 1 0\n1 2 1\n0 1 X");
    assert_eq!(Board::new(1).to_string(), "0");
    assert_eq!(Board::new(0).to_string(), "");
}

#[test]
fn shuffle_bombs_keeps_size_and_mine_count() {
    let board = Board::new(5).populate(7).unwrap();
    let shuffled = Board::shuffle_bombs(&board);
    assert_generated(&shuffled, 5, 7);
}

#[test]
fn reset_hides_every_cell_and_keeps_values() {
    let mut board = Board::new(3).populate(2).unwrap();
    let values: Vec<Vec<CellValue>> =
        board.grid.iter().map(|row| row.iter().map(|c| c.value).collect()).collect();
    board.grid[0][0].state = CellState::Revealed;
    board.grid[1][2].state = CellState::Flagged;
    board.grid[2][1].state = CellState::Revealed;
    board.reset();
    for y in 0..3 {
        for x in 0..3 {
            assert_eq!(board.grid[y][x].state, CellState::Default);
            assert_eq!(board.grid[y][x].value, values[y][x]);
        }
    }
    assert_eq!(board.bomb_coords.len(), 2);
}

#[test]
fn cell_at_and_set_cell_use_row_then_column() {
    let mut board = Board::new(3);
    board.set_cell(Point { x: 2, y: 0 }, Cell::bomb());
    assert_eq!(board.grid[0][2], Cell::bomb());
    assert_eq!(board.cell_at(Point { x: 2, y: 0 }), Cell::bomb());
    assert_eq!(board.cell_at(Point { x: 0, y: 2 }), Cell::number(0));
}
