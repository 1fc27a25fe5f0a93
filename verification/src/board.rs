//! The game board: an N-dimensional grid of cells stored in one flat vector.
//!
//! The board places the mines, counts the mines around every empty cell,
//! toggles flags and reveals cells, spreading from cells with no mine around
//! them.

use vstd::prelude::*;
use crate::cell::{Cell, CellKind, CellState};
use crate::coordinates::{
    cell_count, coords_of, get_neighbors, in_grid, is_in_grid, linear_index, neighbors_of,
    to_coords, to_index, Coordinates,
};
use crate::flood::{flooded, lemma_reach_hidden, lemma_reach_start, lemma_reach_stops, reaches};
use crate::layout::{
    all_hidden, counted_cell, counts_correct, lemma_mines_around_bound, mine_total, mines_among,
    mines_around, neighbor_cells, same_mines, with_counts,
};
use crate::neighbor_laws::lemma_neighbors_in_grid;
use crate::sampling::draw_mines;
use crate::setup::{
    count_cells, count_error, distinct_cells, fresh_cells, hidden_empty, lemma_fresh_cells,
    lemma_with_counts, listed,
    mined_cells, mines_error, valid_shape, BoardError,
};
use crate::spread::{
    fresh, hidden_below, lemma_hidden_below_drop, lemma_spread_begin, lemma_spread_done,
    lemma_spread_end, lemma_spread_reveal, lemma_spread_skip, lemma_spread_take, settled_below,
    spreading,
};

verus! {

/// The N-dimensional game board.
pub struct Board {
    /// The extent of each axis (e.g. `vec![10, 10]` for a 10x10 board).
    dimensions: Vec<usize>,
    /// The cells of the board, stored flat; `coordinates::to_index` gives the
    /// place of a cell.
    pub cells: Vec<Cell>,
    /// The number of mines the board was made with.
    num_mines: usize,
}

/// What a board is: its shape, its cells in flat order, and the number of
/// mines it was made with.
pub struct BoardView {
    /// The extent of each axis.
    pub shape: Seq<usize>,
    /// The cells, in the order of their flat indices.
    pub cells: Seq<Cell>,
    /// The number of mines the board was made with.
    pub num_mines: nat,
}

impl BoardView {
    /// The board has a valid shape and one cell for each coordinate.
    pub open spec fn well_formed(self) -> bool {
        &&& valid_shape(self.shape)
        &&& self.cells.len() == cell_count(self.shape)
    }

    /// The board is as a constructor leaves it, whatever is visible: well
    /// formed, with as many mines as it was made with, and the right count
    /// in every empty cell.
    pub open spec fn sound(self) -> bool {
        &&& self.well_formed()
        &&& mine_total(self.cells) == self.num_mines
        &&& counts_correct(self.cells, self.shape)
    }

    /// A new board of the given shape with mines at the given places: every
    /// cell hidden, every empty cell with the number of mines around it.
    pub open spec fn fresh(shape: Seq<usize>, mines: Seq<usize>) -> BoardView {
        BoardView { shape, cells: fresh_cells(shape, mines), num_mines: mines.len() }
    }

    /// The board is a new board of the given shape with `num_mines` mines
    /// on distinct cells, whichever they are.
    pub open spec fn freshly_drawn(self, shape: Seq<usize>, num_mines: nat) -> bool {
        exists|mines: Seq<usize>|
            mines.len() == num_mines && distinct_cells(mines, cell_count(shape)) && self
                == #[trigger] BoardView::fresh(shape, mines)
    }

    /// The same board with other cells.
    pub open spec fn with_cells(self, cells: Seq<Cell>) -> BoardView {
        BoardView { shape: self.shape, cells, num_mines: self.num_mines }
    }

    /// The board after the mines around every empty cell are counted.
    pub open spec fn counted(self) -> BoardView {
        self.with_cells(with_counts(self.cells, self.shape))
    }

    /// The board after the flag of the cell `index` is toggled.
    pub open spec fn toggled(self, index: int) -> BoardView {
        self.with_cells(self.cells.update(index, self.cells[index].toggled()))
    }

    /// The board after a reveal of the cell `index`. A hidden cell is
    /// revealed, and from a cell with no mine around it the reveal spreads to
    /// the hidden neighbours. A flagged or revealed cell leaves the board as
    /// it is.
    pub open spec fn revealed(self, index: int) -> BoardView {
        self.with_cells(flooded(self.cells, self.shape, index))
    }

    /// The board is cleared: every empty cell is revealed and no mine is.
    pub open spec fn cleared(self) -> bool {
        forall|i: int|
            0 <= i < self.cells.len() ==> ((#[trigger] self.cells[i]).is_mine()
                <==> self.cells[i].state != CellState::Revealed)
    }

    /// A reveal of the cell `index` uncovers a mine at that cell.
    pub open spec fn hits_mine(self, index: int) -> bool {
        self.cells[index].state == CellState::Hidden && self.cells[index].is_mine()
    }
}

impl View for Board {
    type V = BoardView;

    closed spec fn view(&self) -> BoardView {
        BoardView {
            shape: self.dimensions@,
            cells: self.cells@,
            num_mines: self.num_mines as nat,
        }
    }
}

impl Board {
    /// Creates a board of the given shape with `num_mines` mines on cells
    /// drawn at random, every cell hidden and every empty cell with the
    /// number of mines around it.
    ///
    /// The shape needs at least one axis, positive extents and a number of
    /// cells that fits in a `usize`, and there can be no more mines than
    /// cells; `try_new` tests this.
    pub fn new(dimensions: Vec<usize>, num_mines: usize) -> (board: Self)
        requires
            valid_shape(dimensions@),
            num_mines <= cell_count(dimensions@),
        ensures
            board@.sound(),
            board@.shape == dimensions@,
            board@.num_mines == num_mines,
            mine_total(board@.cells) == num_mines,
            all_hidden(board@.cells),
            board@.freshly_drawn(dimensions@, num_mines as nat),
    {
        let counted = count_cells(dimensions.as_slice());
        let total = counted.unwrap();
        let mines = draw_mines(total, num_mines);
        proof {
            assert(mines_error(dimensions@, mines@) is None);
            lemma_fresh_cells(dimensions@, mines@);
        }
        let made = Self::with_mines(dimensions, &mines);
        let board = made.unwrap();
        proof {
            assert(board@ == BoardView::fresh(dimensions@, mines@));
        }
        board
    }

    /// Creates a board as `new` does, or says what is wrong with the shape
    /// or the number of mines.
    pub fn try_new(dimensions: Vec<usize>, num_mines: usize) -> (made: Result<Self, BoardError>)
        ensures
            match made {
                Ok(board) => {
                    &&& count_error(dimensions@, num_mines as nat) is None
                    &&& board@.sound()
                    &&& board@.shape == dimensions@
                    &&& board@.num_mines == num_mines
                    &&& mine_total(board@.cells) == num_mines
                    &&& all_hidden(board@.cells)
                    &&& board@.freshly_drawn(dimensions@, num_mines as nat)
                },
                Err(e) => count_error(dimensions@, num_mines as nat) == Some(e),
            },
    {
        match count_cells(dimensions.as_slice()) {
            Err(e) => Err(e),
            Ok(total) => {
                if num_mines > total {
                    Err(BoardError::TooManyMines)
                } else {
                    Ok(Self::new(dimensions, num_mines))
                }
            },
        }
    }

    /// Creates a board of the given shape with mines on the given cells,
    /// every cell hidden and every empty cell with the number of mines around
    /// it, or says what is wrong with the shape or the mines.
    pub fn with_mines(dimensions: Vec<usize>, mines: &Vec<usize>) -> (made: Result<
        Self,
        BoardError,
    >)
        ensures
            match made {
                Ok(board) => {
                    &&& mines_error(dimensions@, mines@) is None
                    &&& board@ == BoardView::fresh(dimensions@, mines@)
                    &&& board@.sound()
                    &&& all_hidden(board@.cells)
                },
                Err(e) => mines_error(dimensions@, mines@) == Some(e),
            },
    {
        let total = match count_cells(dimensions.as_slice()) {
            Ok(total) => total,
            Err(e) => {
                return Err(e);
            },
        };
        let mut k: usize = 0;
        while k < mines.len()
            invariant
                valid_shape(dimensions@),
                total == cell_count(dimensions@),
                0 <= k <= mines@.len(),
                forall|i: int| 0 <= i < k ==> (#[trigger] mines@[i]) < total,
            decreases mines@.len() - k,
        {
            if mines[k] >= total {
                proof {
                    assert(mines@[k as int] >= cell_count(dimensions@));
                }
                return Err(BoardError::MineOutOfRange);
            }
            k += 1;
        }
        let mut cells: Vec<Cell> = Vec::new();
        let mut i: usize = 0;
        while i < total
            invariant
                0 <= i <= total,
                cells@.len() == i,
                forall|j: int| 0 <= j < i ==> cells@[j] == hidden_empty(),
            decreases total - i,
        {
            cells.push(Cell::new());
            i += 1;
        }
        let mut k: usize = 0;
        while k < mines.len()
            invariant
                valid_shape(dimensions@),
                total == cell_count(dimensions@),
                0 <= k <= mines@.len(),
                cells@.len() == total,
                forall|i: int| 0 <= i < mines@.len() ==> (#[trigger] mines@[i]) < total,
                mines@.take(k as int).no_duplicates(),
                cells@ =~= mined_cells(total as nat, mines@.take(k as int)),
            decreases mines@.len() - k,
        {
            let at = mines[k];
            let ghost placed = mines@.take(k as int);
            let ghost longer = mines@.take(k + 1);
            proof {
                assert(longer =~= placed.push(at));
            }
            match cells[at].kind {
                CellKind::Mine => {
                    proof {
                        assert(listed(placed, at as int));
                        let j = choose|j: int| 0 <= j < placed.len() && #[trigger] placed[j] == at;
                        assert(mines@[j] == mines@[k as int]);
                        assert(!mines@.no_duplicates());
                        assert(!exists|i: int|
                            0 <= i < mines@.len() && #[trigger] mines@[i] >= cell_count(
                                dimensions@,
                            ));
                    }
                    return Err(BoardError::DuplicateMine);
                },
                CellKind::Empty { adjacent_mines: _ } => {
                    let ghost old_cells = cells@;
                    cells.set(at, Cell { state: CellState::Hidden, kind: CellKind::Mine });
                    proof {
                        assert(!listed(placed, at as int));
                        assert forall|a: int, b: int|
                            0 <= a < longer.len() && 0 <= b < longer.len() && a != b implies longer[a]
                            != longer[b] by {
                            if a < k && b < k {
                                assert(placed[a] != placed[b]);
                            } else if a < k {
                                assert(placed[a] == longer[a]);
                            } else {
                                assert(placed[b] == longer[b]);
                            }
                        }
                        assert forall|i: int| 0 <= i < total implies #[trigger] cells@[i]
                            == mined_cells(total as nat, longer)[i] by {
                            if i == at {
                                assert(longer[k as int] == i);
                            } else {
                                if listed(longer, i) {
                                    let j = choose|j: int|
                                        0 <= j < longer.len() && #[trigger] longer[j] == i;
                                    assert(placed[j] == i);
                                }
                                if listed(placed, i) {
                                    let j = choose|j: int|
                                        0 <= j < placed.len() && #[trigger] placed[j] == i;
                                    assert(longer[j] == i);
                                }
                            }
                        }
                    }
                },
            }
            k += 1;
        }
        proof {
            assert(mines@.take(mines@.len() as int) =~= mines@);
        }
        proof {
            lemma_fresh_cells(dimensions@, mines@);
        }
        let mut board = Board { dimensions, cells, num_mines: mines.len() };
        board.calculate_adjacent_mines();
        Ok(board)
    }

    /// The extent of each axis.
    pub fn dimensions(&self) -> (dimensions: &[usize])
        ensures
            dimensions@ == self@.shape,
    {
        self.dimensions.as_slice()
    }

    /// The number of mines the board was made with.
    pub fn num_mines(&self) -> (num_mines: usize)
        ensures
            num_mines == self@.num_mines,
    {
        self.num_mines
    }

    /// The cells of the board, in the order of their flat indices.
    pub fn cells(&self) -> (cells: &Vec<Cell>)
        ensures
            cells@ == self@.cells,
    {
        &self.cells
    }

    /// Counts the mines around every empty cell and stores the number in
    /// the cell. Mines, and the visibility of every cell, stay as they are.
    pub fn calculate_adjacent_mines(&mut self)
        requires
            old(self)@.well_formed(),
        ensures
            final(self)@ == old(self)@.counted(),
            final(self)@.well_formed(),
            counts_correct(final(self)@.cells, final(self)@.shape),
            forall|i: int|
                0 <= i < old(self)@.cells.len() ==> (#[trigger] final(self)@.cells[i]).state == old(
                    self,
                )@.cells[i].state,
            forall|i: int|
                0 <= i < old(self)@.cells.len() ==> match (#[trigger] final(self)@.cells[i]).kind {
                    CellKind::Mine => old(self)@.cells[i].is_mine(),
                    CellKind::Empty { adjacent_mines } => !old(self)@.cells[i].is_mine()
                        && adjacent_mines == mines_around(old(self)@.cells, old(self)@.shape, i),
                },
    {
        let n = self.cells.len();
        let ghost before = self.cells@;
        let ghost shape = self@.shape;
        let mut i: usize = 0;
        while i < n
            invariant
                self@.well_formed(),
                self@.shape == shape,
                self@.num_mines == old(self)@.num_mines,
                before.len() == n,
                self.cells@.len() == n,
                0 <= i <= n,
                forall|j: int| 0 <= j < i ==> self.cells@[j] == counted_cell(before, shape, j),
                forall|j: int| i <= j < n ==> self.cells@[j] == before[j],
            decreases n - i,
        {
            let cell = self.cells[i];
            match cell.kind {
                CellKind::Mine => {},
                CellKind::Empty { adjacent_mines: _ } => {
                    proof {
                        assert forall|j: int| 0 <= j < n implies (#[trigger] self.cells@[j]).is_mine()
                            == before[j].is_mine() by {
                            if j < i {
                                assert(self.cells@[j] == counted_cell(before, shape, j));
                            }
                        }
                    }
                    let count = self.count_around(i, Ghost(before));
                    self.cells.set(
                        i,
                        Cell { state: cell.state, kind: CellKind::Empty { adjacent_mines: count } },
                    );
                },
            }
            i += 1;
        }
        proof {
            assert(self.cells@ =~= with_counts(before, shape));
            lemma_with_counts(before, shape);
            assert forall|i: int| 0 <= i < n implies match (#[trigger] self.cells@[i]).kind {
                CellKind::Mine => before[i].is_mine(),
                CellKind::Empty { adjacent_mines } => !before[i].is_mine() && adjacent_mines
                    == mines_around(before, shape, i),
            } by {
                lemma_mines_around_bound(before, shape, i);
                assert(self.cells@[i] == counted_cell(before, shape, i));
            }
        }
    }

    /// The number of mines around the cell `index`.
    fn count_around(&self, index: usize, Ghost(before): Ghost<Seq<Cell>>) -> (count: usize)
        requires
            self@.well_formed(),
            index < self.cells@.len(),
            same_mines(self.cells@, before),
        ensures
            count == mines_around(before, self@.shape, index as int),
    {
        let coords = to_coords(index, self.dimensions.as_slice());
        let neighbors = get_neighbors(&coords, self.dimensions.as_slice());
        let ghost around = neighbor_cells(self@.shape, index as int);
        proof {
            lemma_neighbors_in_grid(coords@, self@.shape);
        }
        let mut count: usize = 0;
        let mut t: usize = 0;
        while t < neighbors.len()
            invariant
                self@.well_formed(),
                same_mines(self.cells@, before),
                around == neighbor_cells(self@.shape, index as int),
                coords@ == coords_of(index as nat, self@.shape),
                neighbors@.len() == around.len(),
                forall|k: int|
                    0 <= k < neighbors@.len() ==> (#[trigger] neighbors@[k])@
                        == neighbors_of(coords@, self@.shape)[k],
                forall|k: int|
                    0 <= k < neighbors@.len() ==> in_grid(
                        #[trigger] neighbors_of(coords@, self@.shape)[k],
                        self@.shape,
                    ),
                0 <= t <= neighbors@.len(),
                count == mines_among(before, around, t as int),
                count <= t,
            decreases neighbors@.len() - t,
        {
            let neighbor = &neighbors[t];
            assert(neighbor@ == neighbors_of(coords@, self@.shape)[t as int]);
            let at = to_index(neighbor, self.dimensions.as_slice());
            assert(at == around[t as int]);
            let found = self.cells[at];
            match found.kind {
                CellKind::Mine => {
                    count = count + 1;
                },
                CellKind::Empty { adjacent_mines: _ } => {},
            }
            t += 1;
        }
        count
    }

    /// Says whether the coordinates address a cell of the board.
    pub fn contains(&self, coords: &Coordinates) -> (inside: bool)
        ensures
            inside == in_grid(coords@, self@.shape),
    {
        is_in_grid(coords, self.dimensions.as_slice())
    }

    /// Says whether the board is cleared: every empty cell is revealed and
    /// no mine is.
    pub fn is_cleared(&self) -> (cleared: bool)
        ensures
            cleared == self@.cleared(),
    {
        let n = self.cells.len();
        let mut i: usize = 0;
        while i < n
            invariant
                n == self.cells@.len(),
                0 <= i <= n,
                forall|j: int|
                    0 <= j < i ==> ((#[trigger] self.cells@[j]).is_mine() <==> self.cells@[j].state
                        != CellState::Revealed),
            decreases n - i,
        {
            let cell = self.cells[i];
            let mine = match cell.kind {
                CellKind::Mine => true,
                CellKind::Empty { adjacent_mines: _ } => false,
            };
            let shown = match cell.state {
                CellState::Revealed => true,
                _ => false,
            };
            if mine == shown {
                return false;
            }
            i += 1;
        }
        true
    }

    /// Toggles the flag on a cell: a hidden cell becomes flagged, a flagged
    /// cell hidden, and a revealed cell stays as it is. No other cell changes.
    pub fn toggle_flag(&mut self, coords: &Coordinates)
        requires
            old(self)@.well_formed(),
            in_grid(coords@, old(self)@.shape),
        ensures
            final(self)@ == old(self)@.toggled(linear_index(coords@, old(self)@.shape) as int),
            final(self)@.well_formed(),
    {
        let index = to_index(coords, self.dimensions.as_slice());
        let cell = self.cells[index];
        match cell.state {
            CellState::Hidden => {
                self.cells.set(index, Cell { state: CellState::Flagged, kind: cell.kind });
            },
            CellState::Flagged => {
                self.cells.set(index, Cell { state: CellState::Hidden, kind: cell.kind });
            },
            CellState::Revealed => {},
        }
        proof {
            assert(self.cells@ =~= old(self).cells@.update(index as int, cell.toggled()));
        }
    }

    /// Reveals a cell and says whether a mine was revealed.
    ///
    /// A flagged or already revealed cell stays as it is, and so does the
    /// rest of the board. A hidden cell is revealed. If it is empty with no
    /// mine around it, every hidden neighbour is revealed too, and so on from
    /// each revealed cell with no mine around it.
    pub fn reveal_at(&mut self, coords: &Coordinates) -> (hit: bool)
        requires
            old(self)@.well_formed(),
            in_grid(coords@, old(self)@.shape),
        ensures
            final(self)@ == old(self)@.revealed(linear_index(coords@, old(self)@.shape) as int),
            final(self)@.well_formed(),
            hit == old(self)@.hits_mine(linear_index(coords@, old(self)@.shape) as int),
    {
        let index = to_index(coords, self.dimensions.as_slice());
        let ghost before = self.cells@;
        let ghost shape = self@.shape;
        let cell = self.cells[index];
        match cell.state {
            CellState::Hidden => {},
            _ => {
                proof {
                    assert forall|i: int| 0 <= i < before.len() implies !reaches(
                        before,
                        shape,
                        index as int,
                        i,
                    ) by {
                        if reaches(before, shape, index as int, i) {
                            lemma_reach_hidden(before, shape, index as int, i);
                        }
                    }
                    assert(self.cells@ =~= flooded(before, shape, index as int));
                }
                return false;
            },
        }
        self.cells.set(index, Cell { state: CellState::Revealed, kind: cell.kind });
        let blank = match cell.kind {
            CellKind::Mine => false,
            CellKind::Empty { adjacent_mines } => adjacent_mines == 0,
        };
        if blank {
            self.spread_from(index, Ghost(before));
        } else {
            proof {
                lemma_reach_start(before, shape, index as int);
                assert forall|i: int| 0 <= i < before.len() implies (reaches(
                    before,
                    shape,
                    index as int,
                    i,
                ) <==> i == index) by {
                    if reaches(before, shape, index as int, i) {
                        lemma_reach_stops(before, shape, index as int, i);
                    }
                }
                assert(self.cells@ =~= flooded(before, shape, index as int));
            }
        }
        match cell.kind {
            CellKind::Mine => true,
            CellKind::Empty { adjacent_mines: _ } => false,
        }
    }

    /// Carries a reveal on from the cell `start`, which has just been
    /// revealed and has no mine around it, through a list of pending cells.
    fn spread_from(&mut self, start: usize, Ghost(before): Ghost<Seq<Cell>>)
        requires
            old(self)@.well_formed(),
            before.len() == old(self)@.cells.len(),
            start < before.len(),
            before[start as int].state == CellState::Hidden,
            before[start as int].is_blank(),
            old(self)@.cells == before.update(
                start as int,
                before[start as int].with_state(CellState::Revealed),
            ),
        ensures
            final(self)@ == old(self)@.with_cells(flooded(before, old(self)@.shape, start as int)),
    {
        let ghost shape = self@.shape;
        let mut pending: Vec<usize> = Vec::new();
        pending.push(start);
        proof {
            lemma_spread_begin(before, shape, start as int);
            assert(pending@ =~= seq![start]);
        }
        while pending.len() > 0
            invariant
                self@.well_formed(),
                self@.shape == shape,
                self@.num_mines == old(self)@.num_mines,
                spreading(before, self.cells@, shape, start as int, pending@, -1),
            decreases hidden_below(self.cells@, self.cells@.len() as int) + pending@.len(),
        {
            let ghost listed = pending@;
            let busy = pending.pop().unwrap();
            proof {
                lemma_spread_take(before, self.cells@, shape, start as int, listed);
                assert(pending@ =~= listed.drop_last());
            }
            self.reveal_around(busy, &mut pending, Ghost(before), Ghost(start as int));
        }
        proof {
            assert(pending@ =~= Seq::<usize>::empty());
            lemma_spread_end(before, self.cells@, shape, start as int);
        }
    }

    /// Reveals the hidden neighbours of the cell `busy`, and lists those with
    /// no mine around them as pending.
    fn reveal_around(
        &mut self,
        busy: usize,
        pending: &mut Vec<usize>,
        Ghost(before): Ghost<Seq<Cell>>,
        Ghost(start): Ghost<int>,
    )
        requires
            old(self)@.well_formed(),
            spreading(before, old(self)@.cells, old(self)@.shape, start, old(pending)@, busy as int),
            busy < before.len(),
            fresh(before, old(self)@.cells, busy as int),
            before[busy as int].is_blank(),
        ensures
            final(self)@.shape == old(self)@.shape,
            final(self)@.num_mines == old(self)@.num_mines,
            final(self)@.well_formed(),
            spreading(before, final(self)@.cells, old(self)@.shape, start, final(pending)@, -1),
            hidden_below(final(self)@.cells, final(self)@.cells.len() as int) + final(pending)@.len()
                <= hidden_below(old(self)@.cells, old(self)@.cells.len() as int) + old(
                pending,
            )@.len(),
    {
        let ghost shape = self@.shape;
        let coords = to_coords(busy, self.dimensions.as_slice());
        let neighbors = get_neighbors(&coords, self.dimensions.as_slice());
        let ghost around = neighbor_cells(shape, busy as int);
        proof {
            lemma_neighbors_in_grid(coords@, shape);
        }
        let mut t: usize = 0;
        while t < neighbors.len()
            invariant
                self@.well_formed(),
                self@.shape == shape,
                self@.num_mines == old(self)@.num_mines,
                busy < before.len(),
                before[busy as int].is_blank(),
                fresh(before, self.cells@, busy as int),
                spreading(before, self.cells@, shape, start, pending@, busy as int),
                settled_below(before, self.cells@, shape, busy as int, t as int),
                around == neighbor_cells(shape, busy as int),
                coords@ == coords_of(busy as nat, shape),
                neighbors@.len() == around.len(),
                forall|k: int|
                    0 <= k < neighbors@.len() ==> (#[trigger] neighbors@[k])@
                        == neighbors_of(coords@, shape)[k],
                forall|k: int|
                    0 <= k < neighbors@.len() ==> in_grid(
                        #[trigger] neighbors_of(coords@, shape)[k],
                        shape,
                    ),
                0 <= t <= neighbors@.len(),
                hidden_below(self.cells@, self.cells@.len() as int) + pending@.len()
                    <= hidden_below(old(self)@.cells, old(self)@.cells.len() as int) + old(
                    pending,
                )@.len(),
            decreases neighbors@.len() - t,
        {
            let neighbor = &neighbors[t];
            assert(neighbor@ == neighbors_of(coords@, shape)[t as int]);
            let at = to_index(neighbor, self.dimensions.as_slice());
            assert(at == around[t as int]);
            let cell = self.cells[at];
            let ghost now = self.cells@;
            let ghost listed = pending@;
            match cell.state {
                CellState::Hidden => {
                    proof {
                        lemma_spread_reveal(before, now, shape, start, listed, busy as int, t as int);
                        lemma_hidden_below_drop(
                            now,
                            at as int,
                            cell.with_state(CellState::Revealed),
                            now.len() as int,
                        );
                    }
                    self.cells.set(at, Cell { state: CellState::Revealed, kind: cell.kind });
                    let blank = match cell.kind {
                        CellKind::Mine => false,
                        CellKind::Empty { adjacent_mines } => adjacent_mines == 0,
                    };
                    if blank {
                        pending.push(at);
                    }
                },
                _ => {
                    proof {
                        lemma_spread_skip(before, now, shape, start, listed, busy as int, t as int);
                    }
                },
            }
            t += 1;
        }
        proof {
            lemma_spread_done(before, self.cells@, shape, start, pending@, busy as int);
        }
    }
}

} // verus!
