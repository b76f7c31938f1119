use vstd::prelude::*;

verus! {

/// Whether a cell is still hidden (`Default`), uncovered, or marked with a flag.
#[derive(Clone, Copy, PartialEq, Eq, Structural, Debug)]
pub enum CellState {
    Default,
    Revealed,
    Flagged,
}

impl CellState {
    pub fn mark_revealed(&mut self)
        ensures
            *final(self) == CellState::Revealed,
    {
        *self = CellState::Revealed;
    }
}

/// What a cell hides: a mine, or the number of mines around it.
#[derive(Clone, Copy, PartialEq, Eq, Structural, Debug)]
pub enum CellValue {
    Number(i32),
    Bomb,
}

/// The decimal digit `d` (for `0 <= d < 10`) as a character.
pub open spec fn digit_char(d: int) -> char {
    seq!['0', '1', '2', '3', '4', '5', '6', '7', '8', '9'][d]
}

/// The decimal digits of `n`, most significant first, without leading zeros.
pub open spec fn digits(n: nat) -> Seq<char>
    decreases n,
{
    if n < 10 {
        seq![digit_char(n as int)]
    } else {
        digits(n / 10).push(digit_char((n % 10) as int))
    }
}

/// The decimal text of an integer, with a leading `-` when it is negative.
pub open spec fn int_text(n: int) -> Seq<char> {
    if n < 0 {
        seq!['-'] + digits((-n) as nat)
    } else {
        digits(n as nat)
    }
}

/// Relies on the standard library's `ToString` for `i32`, which writes the
/// number in decimal, with a leading `-` for a negative one.
#[verifier::external_body]
fn i32_text(n: i32) -> (r: String)
    ensures
        r@ == int_text(n as int),
{
    n.to_string()
}

impl CellValue {
    /// The text shown for a value: its number in decimal, or `X` for a mine.
    pub open spec fn text(self) -> Seq<char> {
        match self {
            CellValue::Number(n) => int_text(n as int),
            CellValue::Bomb => seq!['X'],
        }
    }

    pub fn to_string(&self) -> (r: String)
        ensures
            r@ == self.text(),
    {
        match self {
            CellValue::Number(num) => i32_text(*num),
            CellValue::Bomb => {
                proof {
                    reveal_strlit("X");
                }
                String::from_str("X")
            },
        }
    }

    /// Whether adding `value` to this value keeps a number within `i32`.
    pub open spec fn can_increment(self, value: i32) -> bool {
        match self {
            CellValue::Number(n) => i32::MIN <= n + value <= i32::MAX,
            CellValue::Bomb => true,
        }
    }

    /// The value with `value` added to its number; a mine stays a mine.
    pub open spec fn incremented(self, value: i32) -> CellValue {
        match self {
            CellValue::Number(n) => CellValue::Number((n + value) as i32),
            CellValue::Bomb => CellValue::Bomb,
        }
    }

    pub fn increment_if_number(&mut self, value: i32)
        requires
            old(self).can_increment(value),
        ensures
            *final(self) == old(self).incremented(value),
    {
        if let CellValue::Number(num) = self {
            *num += value;
        }
    }
}

/// One square of the board: what it hides and whether it is shown.
#[derive(Clone, Copy, PartialEq, Eq, Structural, Debug)]
pub struct Cell {
    pub state: CellState,
    pub value: CellValue,
}

impl Cell {
    /// A hidden cell with no mine and no mine around it.
    pub fn default() -> (r: Self)
        ensures
            r == (Cell { state: CellState::Default, value: CellValue::Number(0) }),
    {
        Self { state: CellState::Default, value: CellValue::Number(0) }
    }

    pub open spec fn number_spec(number: i32) -> Cell {
        Cell { state: CellState::Default, value: CellValue::Number(number) }
    }

    #[verifier::when_used_as_spec(number_spec)]
    pub fn number(number: i32) -> (r: Self)
        ensures
            r == Cell::number_spec(number),
    {
        Self { state: CellState::Default, value: CellValue::Number(number) }
    }

    pub open spec fn bomb_spec() -> Cell {
        Cell { state: CellState::Default, value: CellValue::Bomb }
    }

    #[verifier::when_used_as_spec(bomb_spec)]
    pub fn bomb() -> (r: Self)
        ensures
            r == Cell::bomb_spec(),
    {
        Self { state: CellState::Default, value: CellValue::Bomb }
    }

    /// The text of the value the cell hides, whatever its state.
    pub fn to_string(&self) -> (r: String)
        ensures
            r@ == self.value.text(),
    {
        self.value.to_string()
    }

    pub fn increment_if_number(&mut self, value: i32)
        requires
            old(self).value.can_increment(value),
        ensures
            final(self).value == old(self).value.incremented(value),
            final(self).state == old(self).state,
    {
        self.value.increment_if_number(value);
    }

    /// What a player sees of the cell: `?` while hidden, `F` when flagged,
    /// and the value's text once revealed.
    pub open spec fn glyph_text(self) -> Seq<char> {
        match self.state {
            CellState::Default => seq!['?'],
            CellState::Flagged => seq!['F'],
            CellState::Revealed => self.value.text(),
        }
    }

    pub fn glyph(&self) -> (r: String)
        ensures
            r@ == self.glyph_text(),
    {
        match self.state {
            CellState::Default => {
                proof {
                    reveal_strlit("?");
                }
                String::from_str("?")
            },
            CellState::Flagged => {
                proof {
                    reveal_strlit("F");
                }
                String::from_str("F")
            },
            CellState::Revealed => self.value.to_string(),
        }
    }
}

} // verus!
