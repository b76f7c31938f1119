use minesweeper::{Cell, CellState, CellValue};

#[test]
fn cell_to_string_works() {
    let number_cell = Cell::number(3);
    let bomb_cell = Cell::bomb();

    assert_eq!(number_cell.to_string(), "3");
    assert_eq!(bomb_cell.to_string(), "X");
}

#[test]
fn cell_increment_if_number_works() {
    let mut number_cell = Cell::number(3);
    let mut bomb_cell = Cell::bomb();

    number_cell.increment_if_number(1);
    if let CellValue::Number(num) = number_cell.value {
        assert_eq!(num, 4);
    }

    bomb_cell.increment_if_number(1);
}

#[test]
fn value_to_string_works() {
    let number_cell = Cell::number(3);
    let bomb_cell = Cell::bomb();

    assert_eq!(number_cell.value.to_string(), "3");
    assert_eq!(bomb_cell.value.to_string(), "X");
}

#[test]
fn value_increment_if_number_works() {
    let mut number_cell = Cell::number(3);
    let mut bomb_cell = Cell::bomb();

    number_cell.value.increment_if_number(1);
    if let CellValue::Number(num) = number_cell.value {
        assert_eq!(num, 4);
    }

    bomb_cell.value.increment_if_number(1);
}

#[test]
fn cell_value_to_string_works() {
    let number_cell_value = CellValue::Number(3);
    let bomb_cell_value = CellValue::Bomb;

    assert_eq!(number_cell_value.to_string(), "3");
    assert_eq!(bomb_cell_value.to_string(), "X");
}

#[test]
fn cell_value_increment_if_number_works() {
    let mut number_cell_value = CellValue::Number(3);
    let mut bomb_cell_value = CellValue::Bomb;

    number_cell_value.increment_if_number(1);
    if let CellValue::Number(num) = number_cell_value {
        assert_eq!(num, 4);
    }

    bomb_cell_value.increment_if_number(1);
}

#[test]
fn increment_leaves_a_mine_a_mine() {
    let mut value = CellValue::Bomb;
    value.increment_if_number(5);
    assert_eq!(value, CellValue::Bomb);
}

#[test]
fn value_text_is_decimal_with_sign() {
    assert_eq!(CellValue::Number(0).to_string(), "0");
    assert_eq!(CellValue::Number(8).to_string(), "8");
    assert_eq!(CellValue::Number(1204).to_string(), "1204");
    assert_eq!(CellValue::Number(-37).to_string(), "-37");
    assert_eq!(CellValue::Number(i32::MIN).to_string(), "-2147483648");
}

#[test]
fn cell_factories_start_hidden() {
    assert_eq!(Cell::default(), Cell { state: CellState::Default, value: CellValue::Number(0) });
    assert_eq!(Cell::number(6), Cell { state: CellState::Default, value: CellValue::Number(6) });
    assert_eq!(Cell::bomb(), Cell { state: CellState::Default, value: CellValue::Bomb });
}

#[test]
fn mark_revealed_sets_revealed() {
    let mut state = CellState::Flagged;
    state.mark_revealed();
    assert_eq!(state, CellState::Revealed);
}

#[test]
fn glyph_shows_state_then_value() {
    let mut cell = Cell::number(2);
    assert_eq!(cell.glyph(), "?");
    cell.state = CellState::Flagged;
    assert_eq!(cell.glyph(), "F");
    cell.state = CellState::Revealed;
    assert_eq!(cell.glyph(), "2");
    let mut mine = Cell::bomb();
    mine.state = CellState::Revealed;
    assert_eq!(mine.glyph(), "X");
    // The value's text does not depend on the state.
    assert_eq!(Cell::bomb().to_string(), "X");
}
