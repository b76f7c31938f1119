use vstd::prelude::*;
use vstd::arithmetic::div_mod::{lemma_fundamental_div_mod, lemma_mod_pos_bound};
use rand::Rng;
use crate::cell::{Cell, CellState, CellValue};
use crate::point::{adjacent, lemma_neighbors, lemma_neighbors_len, Point};
use vstd::set_lib::lemma_len_subset;

verus! {

/// Why a board or a game could not be set up.
#[derive(Clone, Copy, PartialEq, Eq, Structural, Debug)]
pub enum Error {
    /// More mines were asked for than the board has cells.
    InvalidMineCount,
    /// A game was asked for on a board without cells.
    InvalidSize,
}

/// A square grid of cells and the coordinates of its mines.
/// `grid` is indexed by row (`y`), then column (`x`).
pub struct Board {
    pub grid: Vec<Vec<Cell>>,
    pub size: usize,
    pub bomb_coords: Vec<Point>,
}

/// The mathematical content of a board.
pub ghost struct BoardView {
    pub size: nat,
    pub cells: Seq<Seq<Cell>>,
    pub bombs: Seq<Point>,
}

impl View for Board {
    type V = BoardView;

    open spec fn view(&self) -> BoardView {
        BoardView {
            size: self.size as nat,
            cells: self.grid@.map_values(|row: Vec<Cell>| row@),
            bombs: self.bomb_coords@,
        }
    }
}

/// The number of entries of `bombs` adjacent to `p`, counted with repetition.
pub open spec fn count_adjacent(bombs: Seq<Point>, p: Point) -> nat
    decreases bombs.len(),
{
    if bombs.len() == 0 {
        0
    } else {
        count_adjacent(bombs.drop_last(), p) + if adjacent(bombs.last(), p) {
            1nat
        } else {
            0nat
        }
    }
}

/// A value with `k` added to its number; a mine stays a mine.
pub open spec fn add_count(v: CellValue, k: int) -> CellValue {
    match v {
        CellValue::Number(n) => CellValue::Number((n + k) as i32),
        CellValue::Bomb => CellValue::Bomb,
    }
}

/// Whether `add_count(v, k)` stays within `i32`.
pub open spec fn count_fits(v: CellValue, k: int) -> bool {
    match v {
        CellValue::Number(n) => n + k <= i32::MAX,
        CellValue::Bomb => true,
    }
}

impl BoardView {
    pub open spec fn in_bounds(self, p: Point) -> bool {
        p.x < self.size && p.y < self.size
    }

    pub open spec fn cell(self, p: Point) -> Cell {
        self.cells[p.y as int][p.x as int]
    }

    /// `size` rows of `size` cells each.
    pub open spec fn shaped(self) -> bool {
        &&& self.cells.len() == self.size
        &&& forall|y: int| 0 <= y < self.size ==> #[trigger] self.cells[y].len() == self.size
    }

    /// Every listed mine lies on the board.
    pub open spec fn bombs_in_bounds(self) -> bool {
        forall|i: int| 0 <= i < self.bombs.len() ==> self.in_bounds(#[trigger] self.bombs[i])
    }

    /// The shape and the mine list that every operation relies on: the cells
    /// fit in memory, and the mines are distinct cells of the board.
    pub open spec fn wf(self) -> bool {
        &&& self.shaped()
        &&& self.size * self.size <= usize::MAX
        &&& self.bombs_in_bounds()
        &&& self.bombs.no_duplicates()
        &&& self.bombs.len() <= self.size * self.size
    }

    /// A board as generated: the mine cells are exactly the listed ones and
    /// every other cell holds the number of mines adjacent to it.
    pub open spec fn consistent(self) -> bool {
        &&& self.wf()
        &&& forall|p: Point| #[trigger] self.in_bounds(p) ==> {
            &&& (self.cell(p).value == CellValue::Bomb <==> self.bombs.contains(p))
            &&& (!self.bombs.contains(p) ==> self.cell(p).value == CellValue::Number(
                count_adjacent(self.bombs, p) as i32,
            ))
        }
    }

    pub open spec fn all_hidden(self) -> bool {
        forall|p: Point| #[trigger] self.in_bounds(p) ==> self.cell(p).state == CellState::Default
    }

    /// A fresh board: no mines, and every cell hidden and holding `0`.
    pub open spec fn blank(self) -> bool {
        &&& self.shaped()
        &&& self.bombs.len() == 0
        &&& forall|p: Point| #[trigger] self.in_bounds(p) ==> self.cell(p) == (Cell {
            state: CellState::Default,
            value: CellValue::Number(0),
        })
    }

    /// On a generated board every cell holds a mine or a number from 0 to 8.
    pub proof fn lemma_numbers_in_range(self, p: Point)
        requires
            self.consistent(),
            self.in_bounds(p),
        ensures
            self.cell(p).value == CellValue::Bomb || (self.cell(p).value matches CellValue::Number(n) && 0 <= n
                <= 8),
    {
        assert(self.size <= usize::MAX) by (nonlinear_arith)
            requires
                self.size * self.size <= usize::MAX,
        ;
        assert forall|i: int| 0 <= i < self.bombs.len() implies (#[trigger] self.bombs[i]).x < self.size as usize
            && self.bombs[i].y < self.size as usize by {
            assert(self.in_bounds(self.bombs[i]));
        }
        lemma_count_at_most_eight(self.bombs, p, self.size as usize);
    }

    /// The board with the cell at `p` replaced.
    pub open spec fn with_cell(self, p: Point, c: Cell) -> BoardView {
        BoardView {
            cells: self.cells.update(p.y as int, self.cells[p.y as int].update(p.x as int, c)),
            ..self
        }
    }
}

/// Relies on rand's `Rng::gen_range` on the thread-local generator: for a
/// non-empty range `low..high` it returns a value inside it (it panics on an
/// empty one).
#[verifier::external_body]
fn random_in(low: usize, high: usize) -> (r: usize)
    requires
        low < high,
    ensures
        low <= r < high,
{
    rand::thread_rng().gen_range(low..high)
}

/// The cell numbered `k` when the cells of a `size` by `size` board are
/// numbered row by row.
pub open spec fn point_of(k: int, size: int) -> Point {
    Point { x: (k % size) as usize, y: (k / size) as usize }
}

/// Numbering the cells row by row gives each cell one number below
/// `size * size`.
pub proof fn lemma_point_of(k1: int, k2: int, size: int)
    requires
        0 <= size,
        0 <= k1 < size * size,
        0 <= k2 < size * size,
        size * size <= usize::MAX,
    ensures
        k1 % size < size,
        k1 / size < size,
        k1 != k2 ==> point_of(k1, size) != point_of(k2, size),
{
    assert(size > 0) by (nonlinear_arith)
        requires
            0 <= size,
            0 <= k1 < size * size,
    ;
    lemma_fundamental_div_mod(k1, size);
    lemma_fundamental_div_mod(k2, size);
    lemma_mod_pos_bound(k1, size);
    lemma_mod_pos_bound(k2, size);
    assert(0 <= k1 / size < size) by (nonlinear_arith)
        requires
            0 <= k1 < size * size,
            k1 == size * (k1 / size) + (k1 % size),
            0 <= k1 % size < size,
    ;
    assert(0 <= k2 / size < size) by (nonlinear_arith)
        requires
            0 <= k2 < size * size,
            k2 == size * (k2 / size) + (k2 % size),
            0 <= k2 % size < size,
    ;
}

proof fn lemma_push_contains(s: Seq<Point>, x: Point, p: Point)
    ensures
        s.push(x).contains(p) == (s.contains(p) || p == x),
{
    if s.contains(p) {
        let i = choose|i: int| 0 <= i < s.len() && s[i] == p;
        assert(s.push(x)[i] == p);
    }
    assert(s.push(x)[s.len() as int] == x);
    if s.push(x).contains(p) && p != x {
        let i = choose|i: int| 0 <= i < s.len() + 1 && s.push(x)[i] == p;
        assert(s[i] == p);
    }
}

/// The members of `s` adjacent to `p`.
pub open spec fn adjacent_in(s: Set<Point>, p: Point) -> Set<Point> {
    s.filter(|b: Point| adjacent(b, p))
}

/// Over a list without repetition, the count is the size of the set of
/// listed points adjacent to `p`.
proof fn lemma_count_as_set(bombs: Seq<Point>, p: Point)
    requires
        bombs.no_duplicates(),
    ensures
        adjacent_in(bombs.to_set(), p).finite(),
        count_adjacent(bombs, p) == adjacent_in(bombs.to_set(), p).len(),
    decreases bombs.len(),
{
    if bombs.len() == 0 {
        assert(adjacent_in(bombs.to_set(), p) =~= Set::empty());
    } else {
        let init = bombs.drop_last();
        let x = bombs.last();
        assert(init.no_duplicates());
        lemma_count_as_set(init, p);
        assert(bombs =~= init.push(x));
        assert(bombs.to_set() =~= init.to_set().insert(x)) by {
            assert forall|q: Point| bombs.to_set().contains(q) <==> init.to_set().contains(q) || q == x by {
                lemma_push_contains(init, x, q);
            }
        }
        assert(!init.contains(x)) by {
            if init.contains(x) {
                let i = choose|i: int| 0 <= i < init.len() && init[i] == x;
                assert(bombs[i] == bombs[bombs.len() - 1]);
            }
        }
        if adjacent(x, p) {
            assert(adjacent_in(bombs.to_set(), p) =~= adjacent_in(init.to_set(), p).insert(x));
        } else {
            assert(adjacent_in(bombs.to_set(), p) =~= adjacent_in(init.to_set(), p));
        }
    }
}

/// Distinct mines on a board leave at most eight of them around any cell.
pub proof fn lemma_count_at_most_eight(bombs: Seq<Point>, p: Point, size: usize)
    requires
        bombs.no_duplicates(),
        forall|i: int| 0 <= i < bombs.len() ==> (#[trigger] bombs[i]).x < size && bombs[i].y < size,
    ensures
        count_adjacent(bombs, p) <= 8,
{
    lemma_count_as_set(bombs, p);
    let around = p.spec_neighbors(size);
    lemma_neighbors(p, size);
    lemma_neighbors_len(p, size);
    around.lemma_cardinality_of_set();
    assert(adjacent_in(bombs.to_set(), p).subset_of(around.to_set())) by {
        assert forall|b: Point| adjacent_in(bombs.to_set(), p).contains(b) implies around.to_set().contains(b) by {
            let i = choose|i: int| 0 <= i < bombs.len() && bombs[i] == b;
            assert(adjacent(p, b));
            assert(around.contains(b));
        }
    }
    lemma_len_subset(adjacent_in(bombs.to_set(), p), around.to_set());
}

/// The parts written one after another with `sep` between each two.
pub open spec fn join(parts: Seq<Seq<char>>, sep: Seq<char>) -> Seq<char>
    decreases parts.len(),
{
    if parts.len() == 0 {
        Seq::empty()
    } else if parts.len() == 1 {
        parts[0]
    } else {
        join(parts.drop_last(), sep) + sep + parts.last()
    }
}

/// The values of a row of cells, separated by spaces.
pub open spec fn row_text(row: Seq<Cell>) -> Seq<char> {
    join(row.map_values(|c: Cell| c.value.text()), seq![' '])
}

/// The rows of a board, one per line.
pub open spec fn board_text(cells: Seq<Seq<Cell>>) -> Seq<char> {
    join(cells.map_values(|row: Seq<Cell>| row_text(row)), seq!['\n'])
}

/// Joining one more part adds the separator and the part.
proof fn lemma_join_take(parts: Seq<Seq<char>>, sep: Seq<char>, i: int)
    requires
        0 <= i < parts.len(),
    ensures
        join(parts.take(i + 1), sep) == if i == 0 {
            parts[0]
        } else {
            join(parts.take(i), sep) + sep + parts[i]
        },
{
    assert(parts.take(i + 1).drop_last() =~= parts.take(i));
}

/// Counting over a prefix of the list adds one for each further entry
/// adjacent to `p`, so it never exceeds the count over the whole list.
proof fn lemma_count_prefix(bombs: Seq<Point>, i: int, p: Point)
    requires
        0 <= i < bombs.len(),
    ensures
        count_adjacent(bombs.take(i + 1), p) == count_adjacent(bombs.take(i), p) + if adjacent(
            bombs[i],
            p,
        ) {
            1nat
        } else {
            0nat
        },
        count_adjacent(bombs.take(i + 1), p) <= count_adjacent(bombs, p),
    decreases bombs.len() - i,
{
    assert(bombs.take(i + 1).drop_last() =~= bombs.take(i));
    if i + 1 < bombs.len() {
        lemma_count_prefix(bombs, i + 1, p);
    } else {
        assert(bombs.take(i + 1) =~= bombs);
    }
}

impl Board {
    pub fn new(size: usize) -> (r: Board)
        ensures
            r@.size == size,
            r@.blank(),
    {
        let mut grid: Vec<Vec<Cell>> = Vec::new();
        let mut y: usize = 0;
        while y < size
            invariant
                y <= size,
                grid@.len() == y,
                forall|i: int, x: int| 0 <= i < y && 0 <= x < size ==> #[trigger] grid@[i]@[x] == Cell::number_spec(0),
                forall|i: int| 0 <= i < y ==> #[trigger] grid@[i]@.len() == size,
            decreases size - y,
        {
            let mut row: Vec<Cell> = Vec::new();
            let mut x: usize = 0;
            while x < size
                invariant
                    x <= size,
                    row@.len() == x,
                    forall|i: int| 0 <= i < x ==> #[trigger] row@[i] == Cell::number_spec(0),
                decreases size - x,
            {
                row.push(Cell::number(0));
                x = x + 1;
            }
            grid.push(row);
            y = y + 1;
        }
        Board { grid, size, bomb_coords: Vec::new() }
    }

    /// Places `bomb_count` mines at random on a fresh board and numbers the
    /// other cells; fails when the board has fewer cells than that.
    pub fn populate(self, bomb_count: usize) -> (r: Result<Board, Error>)
        requires
            self@.blank(),
            self@.size * self@.size <= usize::MAX,
        ensures
            r is Err <==> bomb_count > self@.size * self@.size,
            r is Err ==> r == Err::<Board, Error>(Error::InvalidMineCount),
            r matches Ok(b) ==> {
                &&& b@.size == self@.size
                &&& b@.consistent()
                &&& b@.all_hidden()
                &&& b@.bombs.len() == bomb_count
            },
    {
        let mut board = self;
        match board.place_bombs(bomb_count) {
            Err(e) => {
                return Err(e);
            },
            Ok(()) => {},
        }
        proof {
            assert forall|p: Point| #[trigger] board@.in_bounds(p) implies count_fits(
                board@.cell(p).value,
                count_adjacent(board@.bombs, p) as int,
            ) by {
                lemma_count_at_most_eight(board@.bombs, p, board.size);
            }
        }
        let ghost placed = board@;
        let _ = board.increment_numbers_around_bombs();
        proof {
            assert forall|p: Point| #[trigger] board@.in_bounds(p) implies {
                &&& (board@.cell(p).value == CellValue::Bomb <==> board@.bombs.contains(p))
                &&& (!board@.bombs.contains(p) ==> board@.cell(p).value == CellValue::Number(
                    count_adjacent(board@.bombs, p) as i32,
                ))
                &&& board@.cell(p).state == CellState::Default
            } by {
                assert(placed.in_bounds(p));
            }
        }
        Ok(board)
    }

    /// A new board of the same size with the same number of mines, placed
    /// afresh.
    pub fn shuffle_bombs(board: &Board) -> (r: Self)
        requires
            board@.wf(),
        ensures
            r@.size == board@.size,
            r@.bombs.len() == board@.bombs.len(),
            r@.consistent(),
            r@.all_hidden(),
    {
        match Board::new(board.size).populate(board.bomb_coords.len()) {
            Ok(b) => b,
            Err(_) => unreached(),
        }
    }

    /// Hides every cell again, keeping the mines and numbers.
    pub fn reset(&mut self)
        requires
            old(self)@.shaped(),
        ensures
            final(self)@.size == old(self)@.size,
            final(self)@.bombs == old(self)@.bombs,
            final(self)@.shaped(),
            forall|p: Point| #[trigger] final(self)@.in_bounds(p) ==> final(self)@.cell(p) == (Cell {
                state: CellState::Default,
                value: old(self)@.cell(p).value,
            }),
    {
        let ghost start = self@;
        let mut y: usize = 0;
        while y < self.size
            invariant
                y <= self@.size,
                self@.size == start.size,
                self@.bombs == start.bombs,
                self@.shaped(),
                forall|p: Point| #[trigger] self@.in_bounds(p) ==> self@.cell(p) == (Cell {
                    state: if p.y < y { CellState::Default } else { start.cell(p).state },
                    value: start.cell(p).value,
                }),
            decreases self@.size - y,
        {
            let mut x: usize = 0;
            while x < self.size
                invariant
                    y < self@.size,
                    x <= self@.size,
                    self@.size == start.size,
                    self@.bombs == start.bombs,
                    self@.shaped(),
                    forall|p: Point| #[trigger] self@.in_bounds(p) ==> self@.cell(p) == (Cell {
                        state: if p.y < y || (p.y == y && p.x < x) {
                            CellState::Default
                        } else {
                            start.cell(p).state
                        },
                        value: start.cell(p).value,
                    }),
                decreases self@.size - x,
            {
                let p = Point { x, y };
                let ghost before = self@;
                let mut cell = self.cell_at(p);
                cell.state = CellState::Default;
                self.set_cell(p, cell);
                proof {
                    assert forall|q: Point| #[trigger] self@.in_bounds(q) implies self@.cell(q) == (Cell {
                        state: if q.y < y || (q.y == y && q.x < x + 1) {
                            CellState::Default
                        } else {
                            start.cell(q).state
                        },
                        value: start.cell(q).value,
                    }) by {
                        assert(before.in_bounds(q));
                    }
                }
                x = x + 1;
            }
            y = y + 1;
        }
    }

    /// The values of the cells, row by row: numbers in decimal and `X` for
    /// mines, separated by spaces, with a line break after each row but the
    /// last.
    pub fn to_string(&self) -> (r: String)
        ensures
            r@ == board_text(self@.cells),
    {
        let ghost rows = self@.cells.map_values(|row: Seq<Cell>| row_text(row));
        let mut text = String::new();
        let mut y: usize = 0;
        while y < self.grid.len()
            invariant
                y <= self.grid@.len(),
                rows == self@.cells.map_values(|row: Seq<Cell>| row_text(row)),
                rows.len() == self.grid@.len(),
                text@ == join(rows.take(y as int), seq!['\n']),
            decreases self.grid@.len() - y,
        {
            let row = &self.grid[y];
            let ghost parts = row@.map_values(|c: Cell| c.value.text());
            let mut line = String::new();
            let mut x: usize = 0;
            while x < row.len()
                invariant
                    x <= row@.len(),
                    parts == row@.map_values(|c: Cell| c.value.text()),
                    line@ == join(parts.take(x as int), seq![' ']),
                decreases row@.len() - x,
            {
                proof {
                    lemma_join_take(parts, seq![' '], x as int);
                }
                if x > 0 {
                    proof {
                        reveal_strlit(" ");
                    }
                    line.append(" ");
                }
                let value = row[x].value.to_string();
                line.append(value.as_str());
                x = x + 1;
            }
            proof {
                assert(parts.take(x as int) =~= parts);
                assert(rows[y as int] == line@);
                lemma_join_take(rows, seq!['\n'], y as int);
            }
            if y > 0 {
                proof {
                    reveal_strlit("\n");
                }
                text.append("\n");
            }
            text.append(line.as_str());
            y = y + 1;
        }
        proof {
            assert(rows.take(y as int) =~= rows);
        }
        text
    }

    pub fn cell_at(&self, p: Point) -> (r: Cell)
        requires
            self@.shaped(),
            self@.in_bounds(p),
        ensures
            r == self@.cell(p),
    {
        self.grid[p.y][p.x]
    }

    pub fn set_cell(&mut self, p: Point, c: Cell)
        requires
            old(self)@.shaped(),
            old(self)@.in_bounds(p),
        ensures
            final(self)@ == old(self)@.with_cell(p, c),
    {
        assert(self@.cells[p.y as int] == self.grid@[p.y as int]@);
        self.grid[p.y][p.x] = c;
        assert(self@.cells =~= old(self)@.with_cell(p, c).cells);
    }

    /// Marks `bomb_count` distinct cells, drawn at random, as mines; fails
    /// when the board has fewer cells.
    pub fn place_bombs(&mut self, bomb_count: usize) -> (r: Result<(), Error>)
        requires
            old(self)@.blank(),
            old(self)@.size * old(self)@.size <= usize::MAX,
        ensures
            r is Err <==> bomb_count > old(self)@.size * old(self)@.size,
            r is Err ==> r == Err::<(), Error>(Error::InvalidMineCount) && final(self)@ == old(self)@,
            r is Ok ==> {
                &&& final(self)@.size == old(self)@.size
                &&& final(self)@.wf()
                &&& final(self)@.bombs.len() == bomb_count
                &&& forall|p: Point| #[trigger] final(self)@.in_bounds(p) ==> final(self)@.cell(p) == if final(self)@.bombs.contains(p) {
                    Cell::bomb_spec()
                } else {
                    Cell::number_spec(0)
                }
            },
    {
        let size = self.size;
        let n = size * size;
        if bomb_count > n {
            return Err(Error::InvalidMineCount);
        }
        // The numbers of the cells that hold no mine yet, cells being
        // numbered row by row.
        let mut free: Vec<usize> = Vec::new();
        let mut k: usize = 0;
        while k < n
            invariant
                k <= n,
                free@ == Seq::new(k as nat, |i: int| i as usize),
            decreases n - k,
        {
            free.push(k);
            k = k + 1;
            assert(free@ =~= Seq::new(k as nat, |i: int| i as usize));
        }
        while self.bomb_coords.len() < bomb_count
            invariant
                n == size * size,
                n <= usize::MAX,
                bomb_count <= n,
                self@.bombs.len() <= bomb_count,
                self@.size == size,
                self@.shaped(),
                self@.bombs_in_bounds(),
                self@.bombs.no_duplicates(),
                free@.len() + self@.bombs.len() == n,
                free@.no_duplicates(),
                forall|i: int| 0 <= i < free@.len() ==> #[trigger] free@[i] < n,
                forall|i: int| 0 <= i < free@.len() ==> !self@.bombs.contains(#[trigger] point_of(free@[i] as int, size as int)),
                forall|p: Point| #[trigger] self@.in_bounds(p) ==> self@.cell(p) == if self@.bombs.contains(p) {
                    Cell::bomb_spec()
                } else {
                    Cell::number_spec(0)
                },
            decreases bomb_count - self@.bombs.len(),
        {
            let ghost free0 = free@;
            let ghost view0 = self@;
            let pick = random_in(0, free.len());
            let k = free.swap_remove(pick);
            let point = Point { x: k % size, y: k / size };
            proof {
                lemma_point_of(k as int, k as int, size as int);
                assert(point == point_of(k as int, size as int));
                assert(!view0.bombs.contains(point));
            }
            self.set_cell(point, Cell::bomb());
            self.bomb_coords.push(point);
            proof {
                assert(self@.bombs == view0.bombs.push(point));
                // Each remaining free number sits at its old place, except
                // the last one, which moved into the place of the drawn one.
                assert forall|i: int, i2: int| 0 <= i < free@.len() && 0 <= i2 < free@.len() && i != i2 implies free@[i] != free@[i2] by {
                    let j = if i == pick { free0.len() - 1 } else { i };
                    let j2 = if i2 == pick { free0.len() - 1 } else { i2 };
                    assert(free@[i] == free0[j]);
                    assert(free@[i2] == free0[j2]);
                }
                assert forall|i: int| 0 <= i < free@.len() implies #[trigger] free@[i] < n && !self@.bombs.contains(point_of(free@[i] as int, size as int)) by {
                    let j = if i == pick { free0.len() - 1 } else { i };
                    assert(free@[i] == free0[j]);
                    assert(free0[j] < n);
                    assert(!view0.bombs.contains(point_of(free0[j] as int, size as int)));
                    lemma_point_of(k as int, free0[j] as int, size as int);
                    assert(free0[j] != k);
                }
                assert forall|p: Point| #[trigger] self@.in_bounds(p) implies self@.cell(p) == if self@.bombs.contains(p) {
                    Cell::bomb_spec()
                } else {
                    Cell::number_spec(0)
                } by {
                    assert(view0.in_bounds(p));
                    lemma_push_contains(view0.bombs, point, p);
                }
                assert forall|i: int| 0 <= i < self@.bombs.len() implies self@.in_bounds(#[trigger] self@.bombs[i]) by {
                    if i < view0.bombs.len() {
                        assert(view0.in_bounds(view0.bombs[i]));
                    }
                }
            }
        }
        proof {
            assert(self@.bombs.len() <= size * size);
        }
        Ok(())
    }

    /// Adds to each number cell the count of listed mines adjacent to it.
    pub fn increment_numbers_around_bombs(&mut self) -> (r: Result<(), Error>)
        requires
            old(self)@.shaped(),
            old(self)@.bombs_in_bounds(),
            forall|p: Point| #[trigger] old(self)@.in_bounds(p) ==> count_fits(
                old(self)@.cell(p).value,
                count_adjacent(old(self)@.bombs, p) as int,
            ),
        ensures
            r == Ok::<(), Error>(()),
            final(self)@.size == old(self)@.size,
            final(self)@.bombs == old(self)@.bombs,
            final(self)@.shaped(),
            forall|p: Point| #[trigger] final(self)@.in_bounds(p) ==> final(self)@.cell(p) == (Cell {
                state: old(self)@.cell(p).state,
                value: add_count(old(self)@.cell(p).value, count_adjacent(old(self)@.bombs, p) as int),
            }),
    {
        let ghost start = self@;
        let mut i: usize = 0;
        while i < self.bomb_coords.len()
            invariant
                i <= self.bomb_coords@.len(),
                self@.size == start.size,
                self@.bombs == start.bombs,
                self@.shaped(),
                start.bombs_in_bounds(),
                forall|p: Point| #[trigger] start.in_bounds(p) ==> count_fits(
                    start.cell(p).value,
                    count_adjacent(start.bombs, p) as int,
                ),
                forall|p: Point| #[trigger] self@.in_bounds(p) ==> self@.cell(p) == (Cell {
                    state: start.cell(p).state,
                    value: add_count(start.cell(p).value, count_adjacent(start.bombs.take(i as int), p) as int),
                }),
            decreases self.bomb_coords@.len() - i,
        {
            let bomb = self.bomb_coords[i];
            let neighbors = bomb.neighboring_points(self.size);
            proof {
                lemma_neighbors(bomb, self.size);
            }
            let ghost done = start.bombs.take(i as int);
            let mut j: usize = 0;
            while j < neighbors.len()
                invariant
                    i < self.bomb_coords@.len(),
                    j <= neighbors@.len(),
                    bomb == start.bombs[i as int],
                    done == start.bombs.take(i as int),
                    neighbors@ == bomb.spec_neighbors(self@.size as usize),
                    neighbors@.no_duplicates(),
                    forall|q: Point| #[trigger] neighbors@.contains(q) <==> adjacent(bomb, q) && q.x < self.size && q.y < self.size,
                    self@.size == start.size,
                    self@.bombs == start.bombs,
                    self@.shaped(),
                    forall|p: Point| #[trigger] start.in_bounds(p) ==> count_fits(
                        start.cell(p).value,
                        count_adjacent(start.bombs, p) as int,
                    ),
                    forall|p: Point| #[trigger] self@.in_bounds(p) ==> self@.cell(p) == (Cell {
                        state: start.cell(p).state,
                        value: add_count(
                            start.cell(p).value,
                            count_adjacent(done, p) + if neighbors@.take(j as int).contains(p) {
                                1int
                            } else {
                                0int
                            },
                        ),
                    }),
                decreases neighbors@.len() - j,
            {
                let q = neighbors[j];
                proof {
                    assert(neighbors@.contains(q));
                    assert(self@.in_bounds(q));
                    lemma_count_prefix(start.bombs, i as int, q);
                    assert(!neighbors@.take(j as int).contains(q));
                    assert(start.in_bounds(q));
                }
                let ghost before = self@;
                let mut cell = self.cell_at(q);
                cell.increment_if_number(1);
                self.set_cell(q, cell);
                proof {
                    assert(neighbors@.take(j as int + 1) =~= neighbors@.take(j as int).push(q));
                    assert forall|p: Point| #[trigger] self@.in_bounds(p) implies self@.cell(p) == (Cell {
                        state: start.cell(p).state,
                        value: add_count(
                            start.cell(p).value,
                            count_adjacent(done, p) + if neighbors@.take(j as int + 1).contains(p) {
                                1int
                            } else {
                                0int
                            },
                        ),
                    }) by {
                        assert(before.in_bounds(p));
                        assert(start.in_bounds(p));
                        if p != q {
                            assert(self@.cell(p) == before.cell(p));
                            assert(neighbors@.take(j as int + 1).contains(p) == neighbors@.take(j as int).contains(p));
                        } else {
                            assert(neighbors@.take(j as int + 1)[j as int] == q);
                            assert(self@.cell(p) == cell);
                        }
                    }
                }
                j = j + 1;
            }
            proof {
                assert(neighbors@.take(j as int) =~= neighbors@);
                assert forall|p: Point| #[trigger] self@.in_bounds(p) implies self@.cell(p) == (Cell {
                    state: start.cell(p).state,
                    value: add_count(start.cell(p).value, count_adjacent(start.bombs.take(i + 1), p) as int),
                }) by {
                    lemma_count_prefix(start.bombs, i as int, p);
                }
            }
            i = i + 1;
        }
        proof {
            assert(start.bombs.take(i as int) =~= start.bombs);
        }
        Ok(())
    }
}

} // verus!
