use vstd::prelude::*;
use crate::board::{lemma_point_of, point_of, Board, BoardView, Error};
use vstd::arithmetic::div_mod::lemma_fundamental_div_mod_converse;
use vstd::set_lib::{lemma_int_range, lemma_len_subset, set_int_range};
use crate::cell::{Cell, CellState, CellValue};
use crate::point::{adjacent, lemma_neighbors, Point};

verus! {

/// Where a round stands.
#[derive(Clone, Copy, PartialEq, Eq, Structural, Debug)]
pub enum Status {
    Playing,
    Won,
    Lost,
}

/// A player's request, as read from the keyboard.
#[derive(Clone, Copy, PartialEq, Eq, Structural, Debug)]
pub enum Command {
    Left,
    Right,
    Up,
    Down,
    Reveal,
    Flag,
    Restart,
    Quit,
    Other,
}

/// A round of play: the board, the cell under the cursor, and the outcome so far.
pub struct Game {
    pub board: Board,
    pub cursor_coord: Point,
    pub status: Status,
}

/// The state a flag toggle gives: hidden and flagged swap, revealed stays.
pub open spec fn toggled(s: CellState) -> CellState {
    match s {
        CellState::Default => CellState::Flagged,
        CellState::Flagged => CellState::Default,
        CellState::Revealed => CellState::Revealed,
    }
}

/// The cursor step that a movement command asks for.
pub open spec fn command_step(c: Command) -> Option<Point<i32>> {
    match c {
        Command::Left => Some(Point { x: -1i32, y: 0i32 }),
        Command::Right => Some(Point { x: 1i32, y: 0i32 }),
        Command::Up => Some(Point { x: 0i32, y: -1i32 }),
        Command::Down => Some(Point { x: 0i32, y: 1i32 }),
        _ => None,
    }
}

impl BoardView {
    /// A reveal that reaches `p` goes on to `q`: `p` has no mine around it,
    /// and `q` is a hidden neighbor without a mine.
    pub open spec fn spreads(self, p: Point, q: Point) -> bool {
        &&& self.in_bounds(p)
        &&& self.in_bounds(q)
        &&& adjacent(p, q)
        &&& self.cell(p).value == CellValue::Number(0)
        &&& self.cell(q).state == CellState::Default
        &&& self.cell(q).value != CellValue::Bomb
    }

    /// `q` is `start`, or is reached from it in at most `k` spreading steps.
    pub open spec fn reached_within(self, start: Point, q: Point, k: nat) -> bool
        decreases k,
    {
        if k == 0 {
            q == start
        } else {
            self.reached_within(start, q, (k - 1) as nat) || exists|p: Point|
                self.reached_within(start, p, (k - 1) as nat) && #[trigger] self.spreads(p, q)
        }
    }

    /// The cells that revealing `start` uncovers: none when `start` is
    /// flagged, else `start` and every cell that spreading reaches from it.
    pub open spec fn reached(self, start: Point, q: Point) -> bool {
        &&& self.cell(start).state != CellState::Flagged
        &&& exists|k: nat| #[trigger] self.reached_within(start, q, k)
    }

    /// Every cell without a mine is revealed.
    pub open spec fn cleared(self) -> bool {
        forall|p: Point| #[trigger] self.in_bounds(p) ==> (self.cell(p).value is Number ==> self.cell(p).state
            == CellState::Revealed)
    }
}

/// A cell that the reveal in progress has uncovered: the start, or one that
/// was hidden and is now revealed.
spec fn uncovered(before: BoardView, now: BoardView, start: Point, q: Point) -> bool {
    q == start || (before.cell(q).state == CellState::Default && now.cell(q).state == CellState::Revealed)
}

/// The numbers, in row order, of the hidden cells of a board.
spec fn hidden_cells(v: BoardView) -> Set<int> {
    set_int_range(0, (v.size * v.size) as int).filter(
        |k: int| v.cell(point_of(k, v.size as int)).state == CellState::Default,
    )
}

/// Revealing a hidden cell, and hiding none, leaves fewer hidden cells.
proof fn lemma_hidden_cells_shrink(v: BoardView, w: BoardView, q: Point)
    requires
        v.size == w.size,
        v.size * v.size <= usize::MAX,
        forall|p: Point| #[trigger] w.in_bounds(p) && w.cell(p).state == CellState::Default ==> v.cell(p).state
            == CellState::Default,
        v.in_bounds(q),
        v.cell(q).state == CellState::Default,
        w.cell(q).state != CellState::Default,
    ensures
        hidden_cells(w).len() < hidden_cells(v).len(),
{
    let size = v.size as int;
    let n = size * size;
    assert(0 <= n);
    lemma_int_range(0, n);
    lemma_len_subset(hidden_cells(v), set_int_range(0, n));
    let idx = q.y * size + q.x;
    assert(0 <= idx < n) by (nonlinear_arith)
        requires
            idx == q.y * size + q.x,
            0 <= q.x < size,
            0 <= q.y < size,
            n == size * size,
    ;
    lemma_fundamental_div_mod_converse(idx, size, q.y as int, q.x as int);
    assert(point_of(idx, size) == q);
    assert(hidden_cells(w).subset_of(hidden_cells(v).remove(idx))) by {
        assert forall|k: int| #[trigger] hidden_cells(w).contains(k) implies hidden_cells(v).remove(idx).contains(k) by {
            lemma_point_of(k, k, size);
            assert(w.in_bounds(point_of(k, size)));
        }
    }
    lemma_len_subset(hidden_cells(w), hidden_cells(v).remove(idx));
}

/// Every cell reached from the start has been uncovered, once every
/// uncovered cell has passed the reveal on to all cells it spreads to.
proof fn lemma_reached_uncovered(before: BoardView, now: BoardView, start: Point, q: Point, k: nat)
    requires
        forall|p: Point, r: Point| #[trigger] before.spreads(p, r) && uncovered(before, now, start, p) ==> now.cell(
            r,
        ).state == CellState::Revealed,
        before.reached_within(start, q, k),
    ensures
        uncovered(before, now, start, q),
    decreases k,
{
    if k > 0 {
        if before.reached_within(start, q, (k - 1) as nat) {
            lemma_reached_uncovered(before, now, start, q, (k - 1) as nat);
        } else {
            let p = choose|p: Point| before.reached_within(start, p, (k - 1) as nat) && #[trigger] before.spreads(p, q);
            lemma_reached_uncovered(before, now, start, p, (k - 1) as nat);
        }
    }
}

/// A reveal uncovers, besides its start, only cells that were hidden and
/// free of mines, each next to an uncovered cell with no mine around it: it
/// never passes a flagged or revealed cell, nor goes on from a cell next to
/// a mine.
pub proof fn lemma_reveal_passes_only_zeros(b: BoardView, start: Point, q: Point)
    requires
        b.reached(start, q),
        q != start,
    ensures
        b.cell(q).state == CellState::Default,
        b.cell(q).value != CellValue::Bomb,
        exists|p: Point| b.reached(start, p) && #[trigger] b.spreads(p, q),
{
    let k = choose|k: nat| #[trigger] b.reached_within(start, q, k);
    lemma_reached_within_step(b, start, q, k);
}

proof fn lemma_reached_within_step(b: BoardView, start: Point, q: Point, k: nat)
    requires
        b.cell(start).state != CellState::Flagged,
        b.reached_within(start, q, k),
        q != start,
    ensures
        exists|p: Point| b.reached(start, p) && #[trigger] b.spreads(p, q),
    decreases k,
{
    if b.reached_within(start, q, (k - 1) as nat) {
        lemma_reached_within_step(b, start, q, (k - 1) as nat);
    } else {
        let p = choose|p: Point| b.reached_within(start, p, (k - 1) as nat) && #[trigger] b.spreads(p, q);
        assert(b.reached(start, p));
    }
}

/// A reveal leaves no gap: from every uncovered cell with no mine around
/// it, it goes on to each hidden mine-free neighbor.
pub proof fn lemma_reveal_spreads(b: BoardView, start: Point, p: Point, q: Point)
    requires
        b.reached(start, p),
        b.spreads(p, q),
    ensures
        b.reached(start, q),
{
    let k = choose|k: nat| #[trigger] b.reached_within(start, p, k);
    assert(b.reached_within(start, q, k + 1));
}

impl Game {
    /// Flagging a hidden cell and then revealing it changes nothing: the
    /// cell stays flagged, the board and the round as they were.
    pub proof fn lemma_flag_blocks_reveal(self, flagged: Game, after: Game)
        requires
            self.wf(),
            self.board@.cell(self.cursor_coord).state == CellState::Default,
            self.flag_toggled(flagged),
            flagged.revealed_from(flagged.cursor_coord, after),
        ensures
            after.board@.cell(self.cursor_coord).state == CellState::Flagged,
            forall|q: Point| #[trigger] after.board@.in_bounds(q) ==> after.board@.cell(q) == flagged.board@.cell(q),
            after.status == flagged.status,
    {
        assert(flagged.board@.cell(self.cursor_coord).state == CellState::Flagged);
        assert(after.board@.in_bounds(self.cursor_coord));
    }

    /// Revealing an unflagged mine uncovers it and loses the round.
    pub proof fn lemma_mine_loses(self, point: Point, after: Game)
        requires
            self.wf(),
            self.board@.in_bounds(point),
            self.board@.cell(point).value == CellValue::Bomb,
            self.board@.cell(point).state != CellState::Flagged,
            self.revealed_from(point, after),
        ensures
            after.board@.cell(point).state == CellState::Revealed,
            after.status == Status::Lost,
    {
        assert(self.board@.reached_within(point, point, 0));
        assert(after.board@.in_bounds(point));
    }

    /// The board is well formed and not empty, and the cursor is on it.
    pub open spec fn wf(self) -> bool {
        &&& self.board@.wf()
        &&& self.board@.size > 0
        &&& self.board@.in_bounds(self.cursor_coord)
    }

    /// `next` has the cursor moved by `delta`, or left in place when the
    /// move would leave the board; nothing else changes.
    pub open spec fn moved_to(self, delta: Point<i32>, next: Game) -> bool {
        &&& next.board@ == self.board@
        &&& next.status == self.status
        &&& next.cursor_coord == match self.cursor_coord.spec_offset_and_limit(delta, self.board.size) {
            Some(p) => p,
            None => self.cursor_coord,
        }
    }

    /// `next` has the cell under the cursor flagged if it was hidden, hidden
    /// if it was flagged, and unchanged if it was revealed.
    pub open spec fn flag_toggled(self, next: Game) -> bool {
        &&& next.cursor_coord == self.cursor_coord
        &&& next.status == self.status
        &&& next.board@ == self.board@.with_cell(
            self.cursor_coord,
            Cell {
                state: toggled(self.board@.cell(self.cursor_coord).state),
                value: self.board@.cell(self.cursor_coord).value,
            },
        )
    }

    /// `next` has revealed exactly the cells that `point` reaches, kept all
    /// values, and lost the round if `point` is an unflagged mine.
    pub open spec fn revealed_from(self, point: Point, next: Game) -> bool {
        &&& next.cursor_coord == self.cursor_coord
        &&& next.board@.size == self.board@.size
        &&& next.board@.bombs == self.board@.bombs
        &&& next.board@.shaped()
        &&& forall|q: Point| #[trigger] next.board@.in_bounds(q) ==> next.board@.cell(q) == (Cell {
            state: if self.board@.reached(point, q) {
                CellState::Revealed
            } else {
                self.board@.cell(q).state
            },
            value: self.board@.cell(q).value,
        })
        &&& next.status == if self.board@.cell(point).state != CellState::Flagged && self.board@.cell(point).value
            == CellValue::Bomb {
            Status::Lost
        } else {
            self.status
        }
    }

    /// `next` is a new round: a freshly generated board of the same size
    /// with as many mines, all hidden, the cursor at the corner, in play.
    pub open spec fn restarted(self, next: Game) -> bool {
        &&& next.board@.size == self.board@.size
        &&& next.board@.bombs.len() == self.board@.bombs.len()
        &&& next.board@.consistent()
        &&& next.board@.all_hidden()
        &&& next.cursor_coord == (Point { x: 0usize, y: 0usize })
        &&& next.status == Status::Playing
    }

    /// `next` is what `command` does to a round in play, before the check
    /// for a win.
    pub open spec fn acted(self, command: Command, next: Game) -> bool {
        match command_step(command) {
            Some(delta) => self.moved_to(delta, next),
            None => match command {
                Command::Reveal => self.revealed_from(self.cursor_coord, next),
                Command::Flag => self.flag_toggled(next),
                _ => next == self,
            },
        }
    }

    /// `next` follows from a round in play by `command`, and is won when it
    /// leaves the round in play with every mine-free cell revealed.
    pub open spec fn played(self, command: Command, next: Game) -> bool {
        exists|mid: Game|
            #[trigger] self.acted(command, mid) && next.board@ == mid.board@ && next.cursor_coord == mid.cursor_coord
                && next.status == if mid.status == Status::Playing && mid.board@.cleared() {
                Status::Won
            } else {
                mid.status
            }
    }

    pub fn new(board: Board) -> (r: Result<Game, Error>)
        requires
            board@.wf(),
        ensures
            r is Err <==> board@.size == 0,
            r is Err ==> r == Err::<Game, Error>(Error::InvalidSize),
            r matches Ok(g) ==> {
                &&& g.wf()
                &&& g.board@ == board@
                &&& g.cursor_coord == (Point { x: 0usize, y: 0usize })
                &&& g.status == Status::Playing
            },
    {
        if board.size == 0 {
            return Err(Error::InvalidSize);
        }
        Ok(Game { board, cursor_coord: Point { x: 0, y: 0 }, status: Status::Playing })
    }

    /// Moves the cursor by `value`; a move off the board leaves it in place.
    pub fn move_cursor(&mut self, value: &Point<i32>)
        requires
            old(self).wf(),
        ensures
            final(self).wf(),
            old(self).moved_to(*value, *final(self)),
    {
        let new_coord = self.cursor_coord.offset_and_limit(value, self.board.size);
        if let Some(point) = new_coord {
            self.cursor_coord = point;
        }
    }

    /// Flags the hidden cell under the cursor, or unflags a flagged one; a
    /// revealed cell stays as it is.
    pub fn toggle_flag(&mut self)
        requires
            old(self).wf(),
        ensures
            final(self).wf(),
            old(self).flag_toggled(*final(self)),
    {
        let mut cell = self.board.cell_at(self.cursor_coord);
        cell.state = match cell.state {
            CellState::Default => CellState::Flagged,
            CellState::Flagged => CellState::Default,
            CellState::Revealed => CellState::Revealed,
        };
        self.board.set_cell(self.cursor_coord, cell);
        proof {
            let v = self.board@;
            assert(v.shaped()) by {
                assert forall|y: int| 0 <= y < v.size implies #[trigger] v.cells[y].len() == v.size by {
                    assert(old(self).board@.cells[y].len() == v.size);
                }
            }
        }
    }

    /// Whether every cell without a mine has been revealed.
    pub fn has_won(&self) -> (r: bool)
        requires
            self.board@.shaped(),
        ensures
            r == self.board@.cleared(),
    {
        let size = self.board.size;
        let mut y: usize = 0;
        while y < size
            invariant
                size == self.board@.size,
                y <= size,
                self.board@.shaped(),
                forall|p: Point| #[trigger] self.board@.in_bounds(p) && p.y < y ==> (self.board@.cell(
                    p,
                ).value is Number ==> self.board@.cell(p).state == CellState::Revealed),
            decreases size - y,
        {
            let mut x: usize = 0;
            while x < size
                invariant
                    size == self.board@.size,
                    y < size,
                    x <= size,
                    self.board@.shaped(),
                    forall|p: Point| #[trigger] self.board@.in_bounds(p) && (p.y < y || (p.y == y && p.x < x)) ==> (
                    self.board@.cell(p).value is Number ==> self.board@.cell(p).state == CellState::Revealed),
                decreases size - x,
            {
                let cell = self.board.cell_at(Point { x, y });
                if let CellValue::Number(_) = cell.value {
                    if cell.state != CellState::Revealed {
                        assert(self.board@.in_bounds(Point { x, y }));
                        return false;
                    }
                }
                x = x + 1;
            }
            y = y + 1;
        }
        true
    }

    /// Reveals the cell at `point` and, from each revealed cell with no
    /// mine around it, its hidden mine-free neighbors in turn. A flagged
    /// `point` is left alone; a mine at `point` loses the round.
    pub fn reveal_from(&mut self, point: Point)
        requires
            old(self).wf(),
            old(self).board@.in_bounds(point),
        ensures
            final(self).wf(),
            old(self).revealed_from(point, *final(self)),
    {
        let ghost before = self.board@;
        let first = self.board.cell_at(point);
        if first.state == CellState::Flagged {
            return;
        }
        if first.value == CellValue::Bomb {
            self.status = Status::Lost;
        }
        let mut shown = first;
        shown.state = CellState::Revealed;
        self.board.set_cell(point, shown);
        let mut stack: Vec<Point> = Vec::new();
        if first.value == CellValue::Number(0) {
            stack.push(point);
        }
        proof {
            assert(before.reached_within(point, point, 0));
            assert forall|q: Point| #[trigger] self.board@.in_bounds(q) implies {
                &&& self.board@.cell(q).value == before.cell(q).value
                &&& (self.board@.cell(q).state == before.cell(q).state || (before.cell(q).state
                    == CellState::Default && self.board@.cell(q).state == CellState::Revealed))
                &&& (uncovered(before, self.board@, point, q) ==> before.reached(point, q))
            } by {
                assert(before.in_bounds(q));
                if q != point {
                    assert(self.board@.cell(q) == before.cell(q));
                }
            }
            assert(self.board@.shaped()) by {
                assert forall|y: int| 0 <= y < self.board@.size implies #[trigger] self.board@.cells[y].len() == self.board@.size by {
                    assert(before.cells[y].len() == before.size);
                }
            }
            // Only the start is uncovered so far, and it waits on the stack
            // when it has no mine around it.
            assert forall|p: Point, q: Point| #[trigger] before.spreads(p, q) && uncovered(before, self.board@, point, p)
                && !stack@.contains(p) implies self.board@.cell(q).state == CellState::Revealed by {
                assert(self.board@.in_bounds(p));
                if p == point {
                    assert(stack@[0] == point);
                }
            }
        }
        let ghost status = self.status;
        while stack.len() > 0
            invariant
                self.wf(),
                self.status == status,
                self.cursor_coord == old(self).cursor_coord,
                before == old(self).board@,
                self.board@.size == before.size,
                self.board@.bombs == before.bombs,
                before.in_bounds(point),
                before.cell(point).state != CellState::Flagged,
                self.board@.cell(point).state == CellState::Revealed,
                forall|q: Point| #[trigger] self.board@.in_bounds(q) ==> {
                    &&& self.board@.cell(q).value == before.cell(q).value
                    &&& (self.board@.cell(q).state == before.cell(q).state || (before.cell(q).state
                        == CellState::Default && self.board@.cell(q).state == CellState::Revealed))
                    &&& (uncovered(before, self.board@, point, q) ==> before.reached(point, q))
                },
                forall|p: Point, q: Point| #[trigger] before.spreads(p, q) && uncovered(before, self.board@, point, p)
                    && !stack@.contains(p) ==> self.board@.cell(q).state == CellState::Revealed,
                forall|i: int| 0 <= i < stack@.len() ==> {
                    &&& before.in_bounds(#[trigger] stack@[i])
                    &&& uncovered(before, self.board@, point, stack@[i])
                    &&& before.cell(stack@[i]).value == CellValue::Number(0)
                },
            decreases hidden_cells(self.board@).len(), stack@.len(),
        {
            let ghost round = self.board@;
            let ghost full = stack@;
            let p = stack.pop().unwrap();
            let ghost popped = stack@;
            let ghost mut changed = false;
            let ghost mut witness = p;
            proof {
                assert(stack@ =~= full.drop_last());
                assert(p == full[full.len() - 1]);
                assert(self.board@.in_bounds(p));
            }
            let neighbors = p.neighboring_points(self.board.size);
            proof {
                lemma_neighbors(p, self.board.size);
                assert forall|r: Point, q: Point| #[trigger] before.spreads(r, q) && uncovered(before, self.board@, point, r)
                    && !stack@.contains(r) && r != p implies self.board@.cell(q).state == CellState::Revealed by {
                    if full.contains(r) {
                        let i = choose|i: int| 0 <= i < full.len() && full[i] == r;
                        assert(stack@[i] == r);
                    }
                }
            }
            let mut j: usize = 0;
            while j < neighbors.len()
                invariant
                    self.wf(),
                    self.status == status,
                    self.cursor_coord == old(self).cursor_coord,
                    before == old(self).board@,
                    self.board@.size == before.size,
                    self.board@.bombs == before.bombs,
                    round.size == before.size,
                    round.size * round.size <= usize::MAX,
                    before.in_bounds(point),
                    before.cell(point).state != CellState::Flagged,
                    self.board@.cell(point).state == CellState::Revealed,
                    j <= neighbors@.len(),
                    neighbors@ == p.spec_neighbors(self.board.size),
                    forall|q: Point| #[trigger] neighbors@.contains(q) <==> adjacent(p, q) && q.x < self.board.size
                        && q.y < self.board.size,
                    before.in_bounds(p),
                    uncovered(before, self.board@, point, p),
                    before.cell(p).value == CellValue::Number(0),
                    forall|q: Point| #[trigger] self.board@.in_bounds(q) ==> {
                        &&& self.board@.cell(q).value == before.cell(q).value
                        &&& (self.board@.cell(q).state == before.cell(q).state || (before.cell(q).state
                            == CellState::Default && self.board@.cell(q).state == CellState::Revealed))
                        &&& (uncovered(before, self.board@, point, q) ==> before.reached(point, q))
                        &&& (self.board@.cell(q).state == CellState::Default ==> round.cell(q).state
                            == CellState::Default)
                    },
                    forall|r: Point, q: Point| #[trigger] before.spreads(r, q) && uncovered(before, self.board@, point, r)
                        && !stack@.contains(r) && r != p ==> self.board@.cell(q).state == CellState::Revealed,
                    forall|q: Point| #[trigger] before.spreads(p, q) && neighbors@.take(j as int).contains(q)
                        ==> self.board@.cell(q).state == CellState::Revealed,
                    forall|i: int| 0 <= i < stack@.len() ==> {
                        &&& before.in_bounds(#[trigger] stack@[i])
                        &&& uncovered(before, self.board@, point, stack@[i])
                        &&& before.cell(stack@[i]).value == CellValue::Number(0)
                    },
                    !changed ==> self.board@ == round && stack@ == popped,
                    changed ==> round.in_bounds(witness) && round.cell(witness).state == CellState::Default
                        && self.board@.cell(witness).state != CellState::Default,
                decreases neighbors@.len() - j,
            {
                let q = neighbors[j];
                let ghost now = self.board@;
                proof {
                    assert(neighbors@.contains(q));
                    assert(now.in_bounds(q));
                    assert(neighbors@.take(j as int + 1) =~= neighbors@.take(j as int).push(q));
                }
                let ghost stack_before = stack@;
                let cell = self.board.cell_at(q);
                if cell.state == CellState::Default && cell.value != CellValue::Bomb {
                    let mut shown = cell;
                    shown.state = CellState::Revealed;
                    self.board.set_cell(q, shown);
                    if cell.value == CellValue::Number(0) {
                        stack.push(q);
                    }
                    proof {
                        assert(before.spreads(p, q));
                        assert(now.in_bounds(p));
                        assert(before.reached(point, p));
                        let k = choose|k: nat| #[trigger] before.reached_within(point, p, k);
                        assert(before.reached_within(point, q, k + 1));
                        if !changed {
                            witness = q;
                        }
                        changed = true;
                        assert forall|r: Point| #[trigger] self.board@.in_bounds(r) implies {
                            &&& self.board@.cell(r).value == before.cell(r).value
                            &&& (self.board@.cell(r).state == before.cell(r).state || (before.cell(r).state
                                == CellState::Default && self.board@.cell(r).state == CellState::Revealed))
                            &&& (uncovered(before, self.board@, point, r) ==> before.reached(point, r))
                            &&& (self.board@.cell(r).state == CellState::Default ==> round.cell(r).state
                                == CellState::Default)
                        } by {
                            assert(now.in_bounds(r));
                        }
                        assert forall|i: int| 0 <= i < stack@.len() implies {
                            &&& before.in_bounds(#[trigger] stack@[i])
                            &&& uncovered(before, self.board@, point, stack@[i])
                            &&& before.cell(stack@[i]).value == CellValue::Number(0)
                        } by {
                            assert(now.in_bounds(stack@[i]));
                        }
                    }
                }
                proof {
                    assert forall|r: Point, t: Point| #[trigger] before.spreads(r, t) && uncovered(before, self.board@, point, r)
                        && !stack@.contains(r) && r != p implies self.board@.cell(t).state == CellState::Revealed by {
                        assert(now.in_bounds(r));
                        assert(now.in_bounds(t));
                        if uncovered(before, now, point, r) {
                            if stack_before.contains(r) {
                                let i = choose|i: int| 0 <= i < stack_before.len() && stack_before[i] == r;
                                assert(stack@[i] == r);
                            }
                        } else {
                            assert(r == q);
                            assert(stack@[stack@.len() - 1] == q);
                        }
                    }
                    assert forall|t: Point| #[trigger] before.spreads(p, t) && neighbors@.take(j as int + 1).contains(t)
                        implies self.board@.cell(t).state == CellState::Revealed by {
                        assert(now.in_bounds(t));
                        if t != q {
                            let taken = neighbors@.take(j as int + 1);
                            let i = choose|i: int| 0 <= i < taken.len() && taken[i] == t;
                            assert(neighbors@.take(j as int)[i] == t);
                        }
                    }
                }
                j = j + 1;
            }
            proof {
                if changed {
                    lemma_hidden_cells_shrink(round, self.board@, witness);
                }
                assert(neighbors@.take(j as int) =~= neighbors@);
                assert forall|r: Point, q: Point| #[trigger] before.spreads(r, q) && uncovered(before, self.board@, point, r)
                    && !stack@.contains(r) implies self.board@.cell(q).state == CellState::Revealed by {
                    if r == p {
                        assert(neighbors@.contains(q));
                    }
                }
            }
        }
        proof {
            assert forall|q: Point| #[trigger] self.board@.in_bounds(q) implies self.board@.cell(q) == (Cell {
                state: if before.reached(point, q) {
                    CellState::Revealed
                } else {
                    before.cell(q).state
                },
                value: before.cell(q).value,
            }) by {
                if before.reached(point, q) {
                    let k = choose|k: nat| #[trigger] before.reached_within(point, q, k);
                    lemma_reached_uncovered(before, self.board@, point, q, k);
                }
            }
        }
    }

    pub fn reveal_selected(&mut self)
        requires
            old(self).wf(),
        ensures
            final(self).wf(),
            old(self).revealed_from(old(self).cursor_coord, *final(self)),
    {
        self.reveal_from(self.cursor_coord);
    }

    /// Carries out a player's command and says whether the session goes on
    /// (it ends on `Quit`). In play, commands move the cursor, reveal or
    /// flag; once the round is won or lost, only `Restart` does anything.
    pub fn handle(&mut self, command: Command) -> (keep: bool)
        requires
            old(self).wf(),
        ensures
            final(self).wf(),
            keep == (command != Command::Quit),
            old(self).status == Status::Playing ==> old(self).played(command, *final(self)),
            old(self).status != Status::Playing ==> if command == Command::Restart {
                old(self).restarted(*final(self))
            } else {
                *final(self) == *old(self)
            },
    {
        if self.status != Status::Playing {
            if command == Command::Restart {
                self.reset();
            }
            return command != Command::Quit;
        }
        match command {
            Command::Left => self.move_cursor(&Point { x: -1, y: 0 }),
            Command::Right => self.move_cursor(&Point { x: 1, y: 0 }),
            Command::Up => self.move_cursor(&Point { x: 0, y: -1 }),
            Command::Down => self.move_cursor(&Point { x: 0, y: 1 }),
            Command::Reveal => self.reveal_selected(),
            Command::Flag => self.toggle_flag(),
            _ => {},
        }
        let ghost mid = *self;
        if self.status == Status::Playing && self.has_won() {
            self.status = Status::Won;
        }
        proof {
            assert(old(self).acted(command, mid));
        }
        command != Command::Quit
    }

    /// Starts a new round: mines placed afresh on a board of the same size,
    /// cursor back at the corner.
    pub fn reset(&mut self)
        requires
            old(self).wf(),
        ensures
            final(self).wf(),
            old(self).restarted(*final(self)),
    {
        self.board = Board::shuffle_bombs(&self.board);
        self.cursor_coord = Point { x: 0, y: 0 };
        self.status = Status::Playing;
    }
}

} // verus!
