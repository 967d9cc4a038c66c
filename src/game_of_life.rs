use crate::grid_text::{
    chars_of, decode_lines, decode_row, encode_cell, is_cell_text, is_whitespace,
    lemma_decode_error_prefix, lemma_decode_len, lemma_split_len, lemma_split_prefix,
    lemma_trim_first, lemma_trim_nonempty, parse_text, serialize_rows, split_lines, trim,
    trim_bounds,
};
use vstd::arithmetic::div_mod::{
    lemma_fundamental_div_mod_converse, lemma_mod_add_multiples_vanish, lemma_mod_bound,
    lemma_mod_self_0, lemma_small_mod,
};
use vstd::prelude::*;
use vstd::slice::slice_subrange;

verus! {

/// State of one cell.
#[derive(Copy, Clone, Debug, PartialEq, Eq, Structural)]
pub enum CellValue {
    Dead,
    Alive,
}

impl CellValue {
    /// The opposite state.
    pub fn other(&self) -> (r: CellValue)
        ensures
            r == (if *self == CellValue::Alive {
                CellValue::Dead
            } else {
                CellValue::Alive
            }),
    {
        match self {
            CellValue::Dead => CellValue::Alive,
            CellValue::Alive => CellValue::Dead,
        }
    }

    /// 1 for a live cell, 0 for a dead one.
    pub fn alive_count(&self) -> (r: u8)
        ensures
            r == alive_count(*self),
    {
        match self {
            CellValue::Dead => 0,
            CellValue::Alive => 1,
        }
    }
}

/// Why a text describes no grid.
#[derive(Copy, Clone, Debug, PartialEq, Eq, Structural)]
pub enum ParseError {
    /// The text is empty or only whitespace.
    EmptyInput,
    /// A line holds a character other than `#` and `_`.
    InvalidCharacter,
    /// A line is not as long as the first one.
    InconsistentRowWidth,
}

/// 1 for a live cell, 0 for a dead one.
pub open spec fn alive_count(v: CellValue) -> nat {
    if v == CellValue::Alive {
        1
    } else {
        0
    }
}

/// The cell at (`row`, `col`) of a row-major `width` x `height` grid, where both
/// coordinates wrap around the edges, so that the grid is a torus.
pub open spec fn cell_at(cells: Seq<CellValue>, width: int, height: int, row: int, col: int) -> CellValue {
    cells[(row % height) * width + (col % width)]
}

/// Number of live cells among the eight toroidal neighbours of (`row`, `col`).
pub open spec fn live_neighbours(
    cells: Seq<CellValue>,
    width: int,
    height: int,
    row: int,
    col: int,
) -> nat {
    alive_count(cell_at(cells, width, height, row - 1, col - 1))
        + alive_count(cell_at(cells, width, height, row - 1, col))
        + alive_count(cell_at(cells, width, height, row - 1, col + 1))
        + alive_count(cell_at(cells, width, height, row, col - 1))
        + alive_count(cell_at(cells, width, height, row, col + 1))
        + alive_count(cell_at(cells, width, height, row + 1, col - 1))
        + alive_count(cell_at(cells, width, height, row + 1, col))
        + alive_count(cell_at(cells, width, height, row + 1, col + 1))
}

/// The rule of the game: a live cell survives with two or three live
/// neighbours, a dead cell comes alive with exactly three.
pub open spec fn next_state(v: CellValue, neighbours: nat) -> CellValue {
    if neighbours == 3 || (v == CellValue::Alive && neighbours == 2) {
        CellValue::Alive
    } else {
        CellValue::Dead
    }
}

/// The generation that follows `cells` on a toroidal `width` x `height` grid.
pub open spec fn next_generation(cells: Seq<CellValue>, width: int, height: int) -> Seq<CellValue> {
    Seq::new(
        cells.len(),
        |i: int| next_state(cells[i], live_neighbours(cells, width, height, i / width, i % width)),
    )
}

/// A grid of `n` dead cells.
pub open spec fn all_dead(n: nat) -> Seq<CellValue> {
    Seq::new(n, |i: int| CellValue::Dead)
}

/// Whether some cell of `cells` is alive.
pub open spec fn any_alive(cells: Seq<CellValue>) -> bool {
    exists|i: int| 0 <= i < cells.len() && cells[i] == CellValue::Alive
}

/// Offset of the `k`-th neighbour row (or column) on a ring of `n` positions,
/// written as a non-negative step: `n - 1` for one back, 0, then 1.
spec fn ring_step(k: int, n: int) -> int {
    if k == 0 {
        n - 1
    } else if k == 1 {
        0
    } else {
        1
    }
}

/// What the `k`-th of the nine positions around (`row`, `col`) adds to the
/// count, the centre (`k == 4`) adding nothing.
spec fn ring_term(cells: Seq<CellValue>, width: int, height: int, row: int, col: int, k: int) -> nat {
    if k == 4 {
        0
    } else {
        alive_count(
            cell_at(cells, width, height, row + ring_step(k / 3, height), col + ring_step(k % 3, width)),
        )
    }
}

/// The sum of the first `k` of the nine terms.
spec fn ring_sum(cells: Seq<CellValue>, width: int, height: int, row: int, col: int, k: nat) -> nat
    decreases k,
{
    if k == 0 {
        0
    } else {
        ring_sum(cells, width, height, row, col, (k - 1) as nat) + ring_term(
            cells,
            width,
            height,
            row,
            col,
            k - 1,
        )
    }
}

/// Stepping forward by `n - 1` on a ring of `n` is stepping back by one.
proof fn lemma_step_back(v: int, n: int)
    requires
        n > 0,
    ensures
        (v + (n - 1)) % n == (v - 1) % n,
{
    lemma_mod_add_multiples_vanish(v - 1, n);
    assert(v + (n - 1) == n + (v - 1));
}

/// The nine-term sum is the eight-neighbour count.
proof fn lemma_ring_sum(cells: Seq<CellValue>, width: int, height: int, row: int, col: int)
    requires
        width > 0,
        height > 0,
    ensures
        ring_sum(cells, width, height, row, col, 9) == live_neighbours(cells, width, height, row, col),
{
    reveal_with_fuel(ring_sum, 10);
    lemma_step_back(row, height);
    lemma_step_back(col, width);
    assert(row + 0 == row && col + 0 == col);
}

/// Row-major index of (`row`, `col`) is below `width * height`.
proof fn lemma_index_in_grid(row: int, col: int, width: int, height: int)
    requires
        0 <= row < height,
        0 <= col < width,
    ensures
        0 <= row * width + col < width * height,
        row * width + col < (row + 1) * width,
        (row + 1) * width == row * width + width,
        (row + 1) * width <= width * height,
{
    assert(0 <= row * width) by (nonlinear_arith)
        requires
            0 <= row,
            0 <= col < width,
    ;
    assert((row + 1) * width == row * width + width) by (nonlinear_arith);
    assert((row + 1) * width <= width * height) by (nonlinear_arith)
        requires
            row + 1 <= height,
            0 < width,
    ;
}

/// A wrapped position always falls inside the grid.
proof fn lemma_cell_at_index(width: int, height: int, row: int, col: int)
    requires
        width > 0,
        height > 0,
    ensures
        0 <= (row % height) * width + (col % width) < width * height,
{
    lemma_mod_bound(row, height);
    lemma_mod_bound(col, width);
    lemma_index_in_grid(row % height, col % width, width, height);
}

/// Every generation that follows an all-dead grid is all dead, and nothing
/// in it is alive.
pub proof fn lemma_dead_grid_stays_dead(width: int, height: int)
    requires
        width > 0,
        height > 0,
    ensures
        next_generation(all_dead((width * height) as nat), width, height) == all_dead(
            (width * height) as nat,
        ),
        !any_alive(all_dead((width * height) as nat)),
{
    let cells = all_dead((width * height) as nat);
    assert(0 < width * height) by (nonlinear_arith)
        requires
            width > 0,
            height > 0,
    ;
    assert forall|r: int, c: int| cell_at(cells, width, height, r, c) == CellValue::Dead by {
        lemma_cell_at_index(width, height, r, c);
    }
    assert(next_generation(cells, width, height) =~= cells);
}

/// The grid wraps around at every edge: the row above the top row is the
/// bottom row, the row below the bottom row is the top row, and likewise for
/// the columns left of the first and right of the last.
pub proof fn lemma_edges_wrap(width: int, height: int)
    requires
        width > 0,
        height > 0,
    ensures
        (0 - 1) % height == height - 1,
        ((height - 1) + 1) % height == 0,
        (0 - 1) % width == width - 1,
        ((width - 1) + 1) % width == 0,
{
    lemma_mod_add_multiples_vanish(-1, height);
    lemma_mod_add_multiples_vanish(-1, width);
    lemma_small_mod((height - 1) as nat, height as nat);
    lemma_small_mod((width - 1) as nat, width as nat);
    lemma_mod_self_0(height);
    lemma_mod_self_0(width);
}

/// The neighbour at offset (`dr`, `dc`) of (`row`, `col`) sits at row
/// `(row + height + dr) % height` and column `(col + width + dc) % width`:
/// each step off an edge comes back in at the opposite edge.
pub proof fn lemma_neighbour_position(
    cells: Seq<CellValue>,
    width: int,
    height: int,
    row: int,
    col: int,
    dr: int,
    dc: int,
)
    requires
        width > 0,
        height > 0,
    ensures
        cell_at(cells, width, height, row + dr, col + dc) == cells[((row + height + dr) % height) * width
            + (col + width + dc) % width],
{
    lemma_mod_add_multiples_vanish(row + dr, height);
    lemma_mod_add_multiples_vanish(col + dc, width);
    assert(row + height + dr == height + (row + dr));
    assert(col + width + dc == width + (col + dc));
}

/// On an `n` x `n` grid the corners (0, 0) and (n - 1, n - 1) are diagonal
/// neighbours: with `n` at least 3 and only one of them alive, the other one
/// counts exactly one live neighbour.
pub proof fn lemma_corners_adjacent(n: int)
    requires
        n >= 3,
    ensures
        live_neighbours(
            all_dead((n * n) as nat).update(n * n - 1, CellValue::Alive),
            n,
            n,
            0,
            0,
        ) == 1,
        live_neighbours(all_dead((n * n) as nat).update(0, CellValue::Alive), n, n, n - 1, n - 1)
            == 1,
        all_dead((n * n) as nat).update(n * n - 1, CellValue::Alive)[(n - 1) * n + (n - 1)]
            == CellValue::Alive,
{
    lemma_edges_wrap(n, n);
    lemma_small_mod(0, n as nat);
    lemma_small_mod(1, n as nat);
    lemma_small_mod((n - 2) as nat, n as nat);
    lemma_small_mod((n - 1) as nat, n as nat);
    lemma_mod_self_0(n);
    assert(n * n - 1 == (n - 1) * n + (n - 1)) by (nonlinear_arith);
    assert(2 * n - 1 < n * n - 1) by (nonlinear_arith)
        requires
            n >= 3,
    ;
    assert((n - 1) * n + 1 < n * n - 1) by (nonlinear_arith)
        requires
            n >= 3,
    ;
    assert((n - 2) * n + (n - 1) >= n + 1) by (nonlinear_arith)
        requires
            n >= 3,
    ;
    assert((n - 1) * n + (n - 2) > n + 1) by (nonlinear_arith)
        requires
            n >= 3,
    ;
    assert((n - 1) * n == n * n - n) by (nonlinear_arith);
    assert((n - 2) * n == n * n - 2 * n) by (nonlinear_arith);
    assert(0 * n == 0);
    assert(1 * n == n);
}

/// A Game of Life grid of fixed size. It keeps the current generation and the
/// one before it, and swaps the two buffers on each step.
pub struct Field {
    width: usize,
    height: usize,
    cells: Vec<CellValue>,
    swap_cells: Vec<CellValue>,
}

impl Field {
    /// Number of columns.
    pub closed spec fn spec_width(&self) -> nat {
        self.width as nat
    }

    /// Number of rows.
    pub closed spec fn spec_height(&self) -> nat {
        self.height as nat
    }

    /// The current generation, row by row.
    pub closed spec fn current(&self) -> Seq<CellValue> {
        self.cells@
    }

    /// The generation before the current one (all dead before the first step).
    pub closed spec fn previous(&self) -> Seq<CellValue> {
        self.swap_cells@
    }

    /// Both dimensions are positive, their product fits in `usize`, and both
    /// buffers hold one cell per position.
    pub closed spec fn wf(&self) -> bool {
        &&& self.width > 0
        &&& self.height > 0
        &&& self.width * self.height <= usize::MAX
        &&& self.cells@.len() == self.width * self.height
        &&& self.swap_cells@.len() == self.width * self.height
    }

    /// What a well-formed grid guarantees: positive dimensions whose product
    /// fits in `usize`, and both generations one cell per position.
    pub proof fn lemma_wf(&self)
        requires
            self.wf(),
        ensures
            self.spec_width() > 0,
            self.spec_height() > 0,
            self.spec_width() * self.spec_height() <= usize::MAX,
            self.current().len() == self.spec_width() * self.spec_height(),
            self.previous().len() == self.spec_width() * self.spec_height(),
    {
    }

    /// The cell at (`row`, `col`) of the current generation.
    pub open spec fn cell(&self, row: int, col: int) -> CellValue {
        self.current()[row * self.spec_width() + col]
    }

    /// An all-dead grid of the given size.
    pub fn new(width: usize, height: usize) -> (r: Field)
        requires
            width > 0,
            height > 0,
            width * height <= usize::MAX,
        ensures
            r.wf(),
            r.spec_width() == width,
            r.spec_height() == height,
            r.current() == all_dead((width * height) as nat),
            r.previous() == all_dead((width * height) as nat),
    {
        let cell_count = width * height;
        let cells = vec![CellValue::Dead; cell_count];
        let swap_cells = vec![CellValue::Dead; cell_count];
        assert(cells@ =~= all_dead(cell_count as nat));
        assert(swap_cells@ =~= all_dead(cell_count as nat));
        Field { width, height, cells, swap_cells }
    }

    /// A grid whose cell with row-major index `i` is alive exactly when
    /// `random_bool(i)` returns true.
    pub fn generate_by_fn<F: Fn(usize) -> bool>(width: usize, height: usize, random_bool: F) -> (r: Field)
        requires
            width > 0,
            height > 0,
            width * height <= usize::MAX,
            forall|i: usize| i < width * height ==> random_bool.requires((i,)),
        ensures
            r.wf(),
            r.spec_width() == width,
            r.spec_height() == height,
            forall|i: int|
                0 <= i < width * height ==> random_bool.ensures(
                    (i as usize,),
                    r.current()[i] == CellValue::Alive,
                ),
            r.current().len() == width * height,
            r.previous() == all_dead((width * height) as nat),
    {
        let cell_count = width * height;
        let mut cells: Vec<CellValue> = Vec::with_capacity(cell_count);
        let mut i: usize = 0;
        while i < cell_count
            invariant
                i <= cell_count,
                cell_count == width * height,
                cells@.len() == i,
                forall|j: usize| j < width * height ==> random_bool.requires((j,)),
                forall|j: int|
                    0 <= j < i ==> random_bool.ensures(
                        (j as usize,),
                        cells@[j] == CellValue::Alive,
                    ),
            decreases cell_count - i,
        {
            let value = if random_bool(i) {
                CellValue::Alive
            } else {
                CellValue::Dead
            };
            cells.push(value);
            i = i + 1;
        }
        let swap_cells = vec![CellValue::Dead; cell_count];
        assert(swap_cells@ =~= all_dead(cell_count as nat));
        Field { width, height, cells, swap_cells }
    }

    /// Number of rows.
    pub fn get_height(&self) -> (r: usize)
        ensures
            r == self.spec_height(),
    {
        self.height
    }

    /// Number of columns.
    pub fn get_width(&self) -> (r: usize)
        ensures
            r == self.spec_width(),
    {
        self.width
    }

    /// Row-major index of a position, or `None` outside the grid.
    fn coords_to_index_checked(&self, row: usize, col: usize) -> (r: Option<usize>)
        requires
            self.wf(),
        ensures
            match r {
                Some(i) => row < self.spec_height() && col < self.spec_width() && i == row
                    * self.spec_width() + col && i < self.current().len(),
                None => row >= self.spec_height() || col >= self.spec_width(),
            },
    {
        if row >= self.height {
            return None;
        }
        if col >= self.width {
            return None;
        }
        let index = self.coords_to_index_unchecked(row, col);
        Some(index)
    }

    /// Row-major index of a position inside the grid.
    fn coords_to_index_unchecked(&self, row: usize, col: usize) -> (r: usize)
        requires
            self.wf(),
            row < self.spec_height(),
            col < self.spec_width(),
        ensures
            r == row * self.spec_width() + col,
            r < self.current().len(),
    {
        proof {
            lemma_index_in_grid(row as int, col as int, self.width as int, self.height as int);
        }
        row * self.width + col
    }

    /// The state of the cell at (`row`, `col`), or `None` outside the grid.
    pub fn get_by_coords(&self, row: usize, col: usize) -> (r: Option<CellValue>)
        requires
            self.wf(),
        ensures
            row < self.spec_height() && col < self.spec_width() ==> r == Some(self.cell(row as int, col as int)),
            row >= self.spec_height() || col >= self.spec_width() ==> r is None,
    {
        let index = match self.coords_to_index_checked(row, col) {
            Some(i) => i,
            None => return None,
        };
        Some(self.cells[index])
    }

    /// Sets the cell at (`row`, `col`); `None`, and nothing changed, outside the grid.
    pub fn set_by_coords(&mut self, row: usize, col: usize, value: CellValue) -> (r: Option<()>)
        requires
            old(self).wf(),
        ensures
            final(self).wf(),
            final(self).spec_width() == old(self).spec_width(),
            final(self).spec_height() == old(self).spec_height(),
            final(self).previous() == old(self).previous(),
            row < old(self).spec_height() && col < old(self).spec_width() ==> r is Some
                && final(self).current() == old(self).current().update(
                row * old(self).spec_width() + col,
                value,
            ),
            row >= old(self).spec_height() || col >= old(self).spec_width() ==> r is None
                && *final(self) == *old(self),
    {
        let index = match self.coords_to_index_checked(row, col) {
            Some(i) => i,
            None => return None,
        };
        self.cells.set(index, value);
        Some(())
    }

    /// Flips the cell at (`row`, `col`) between dead and alive; `None`, and
    /// nothing changed, outside the grid.
    pub fn toggle_by_coords(&mut self, row: usize, col: usize) -> (r: Option<()>)
        requires
            old(self).wf(),
        ensures
            final(self).wf(),
            final(self).spec_width() == old(self).spec_width(),
            final(self).spec_height() == old(self).spec_height(),
            final(self).previous() == old(self).previous(),
            row < old(self).spec_height() && col < old(self).spec_width() ==> r is Some
                && final(self).current() == old(self).current().update(
                row * old(self).spec_width() + col,
                if old(self).cell(row as int, col as int) == CellValue::Alive {
                    CellValue::Dead
                } else {
                    CellValue::Alive
                },
            ),
            row >= old(self).spec_height() || col >= old(self).spec_width() ==> r is None
                && *final(self) == *old(self),
    {
        let index = match self.coords_to_index_checked(row, col) {
            Some(i) => i,
            None => return None,
        };
        let flipped = self.cells[index].other();
        self.cells.set(index, flipped);
        Some(())
    }

    /// The current generation, row by row.
    pub fn view(&self) -> (r: &[CellValue])
        ensures
            r@ == self.current(),
    {
        self.cells.as_slice()
    }

    /// The generation before the current one.
    pub fn view_old(&self) -> (r: &[CellValue])
        ensures
            r@ == self.previous(),
    {
        self.swap_cells.as_slice()
    }

    /// The rows of the current generation, top to bottom.
    pub fn rows(&self) -> (r: Vec<&[CellValue]>)
        requires
            self.wf(),
        ensures
            r@.len() == self.spec_height(),
            forall|i: int|
                0 <= i < self.spec_height() ==> r@[i]@ == self.current().subrange(
                    i * self.spec_width(),
                    (i + 1) * self.spec_width(),
                ),
    {
        let width = self.width;
        let mut r: Vec<&[CellValue]> = Vec::with_capacity(self.height);
        let mut start: usize = 0;
        let mut row: usize = 0;
        while row < self.height
            invariant
                self.wf(),
                width == self.width,
                row <= self.height,
                start == row * width,
                r@.len() == row,
                forall|i: int|
                    0 <= i < row ==> r@[i]@ == self.current().subrange(i * width, (i + 1) * width),
            decreases self.height - row,
        {
            proof {
                lemma_index_in_grid(row as int, 0, width as int, self.height as int);
            }
            r.push(slice_subrange(self.cells.as_slice(), start, start + width));
            start = start + width;
            row = row + 1;
        }
        r
    }

    /// The rows of the current generation, each beside the same row of the
    /// previous generation, top to bottom.
    pub fn rows_with_old(&self) -> (r: Vec<(&[CellValue], &[CellValue])>)
        requires
            self.wf(),
        ensures
            r@.len() == self.spec_height(),
            forall|i: int|
                0 <= i < self.spec_height() ==> r@[i].0@ == self.current().subrange(
                    i * self.spec_width(),
                    (i + 1) * self.spec_width(),
                ) && r@[i].1@ == self.previous().subrange(
                    i * self.spec_width(),
                    (i + 1) * self.spec_width(),
                ),
    {
        let width = self.width;
        let mut r: Vec<(&[CellValue], &[CellValue])> = Vec::with_capacity(self.height);
        let mut start: usize = 0;
        let mut row: usize = 0;
        while row < self.height
            invariant
                self.wf(),
                width == self.width,
                row <= self.height,
                start == row * width,
                r@.len() == row,
                forall|i: int|
                    0 <= i < row ==> r@[i].0@ == self.current().subrange(i * width, (i + 1) * width)
                        && r@[i].1@ == self.previous().subrange(i * width, (i + 1) * width),
            decreases self.height - row,
        {
            proof {
                lemma_index_in_grid(row as int, 0, width as int, self.height as int);
            }
            let current = slice_subrange(self.cells.as_slice(), start, start + width);
            let previous = slice_subrange(self.swap_cells.as_slice(), start, start + width);
            r.push((current, previous));
            start = start + width;
            row = row + 1;
        }
        r
    }

    /// Whether the cell at `index` is to be drawn in the colour of `filter`:
    /// it holds that state and either changed in the last step or `force` asks
    /// for every cell.
    pub open spec fn needs_redraw(&self, index: int, filter: CellValue, force: bool) -> bool {
        self.current()[index] == filter && (self.current()[index] != self.previous()[index] || force)
    }

    /// The row-major indices, in increasing order, of the cells to draw in the
    /// colour of `filter`: those in that state that changed in the last step,
    /// or all those in that state where `force` is set.
    pub fn cells_to_redraw(&self, filter: CellValue, force: bool) -> (r: Vec<usize>)
        requires
            self.wf(),
        ensures
            forall|k: int| 0 <= k < r@.len() ==> r@[k] < self.current().len() && self.needs_redraw(r@[k] as int, filter, force),
            forall|k: int, l: int| 0 <= k < l < r@.len() ==> r@[k] < r@[l],
            forall|i: int|
                0 <= i < self.current().len() && self.needs_redraw(i, filter, force) ==> exists|k: int|
                    0 <= k < r@.len() && r@[k] == i,
    {
        let mut r: Vec<usize> = Vec::new();
        let n = self.cells.len();
        let mut i: usize = 0;
        while i < n
            invariant
                self.wf(),
                n == self.current().len(),
                i <= n,
                forall|k: int| 0 <= k < r@.len() ==> r@[k] < i && self.needs_redraw(r@[k] as int, filter, force),
                forall|k: int, l: int| 0 <= k < l < r@.len() ==> r@[k] < r@[l],
                forall|j: int|
                    0 <= j < i && self.needs_redraw(j, filter, force) ==> exists|k: int| 0 <= k < r@.len() && r@[k] == j,
            decreases n - i,
        {
            let value = self.cells[i];
            if value == filter && (value != self.swap_cells[i] || force) {
                let ghost before = r@;
                r.push(i);
                proof {
                    assert forall|j: int|
                        0 <= j < i + 1 && self.needs_redraw(j, filter, force) implies exists|k: int|
                            0 <= k < r@.len() && r@[k] == j by {
                        if j < i {
                            let k = choose|k: int| 0 <= k < before.len() && before[k] == j;
                            assert(r@[k] == j);
                        } else {
                            assert(r@[before.len() as int] == j);
                        }
                    }
                }
            }
            i = i + 1;
        }
        r
    }

    /// Advances the grid by one generation and tells whether any cell is alive
    /// afterwards. The old generation stays readable through `view_old`.
    pub fn update(&mut self) -> (r: bool)
        requires
            old(self).wf(),
        ensures
            final(self).wf(),
            final(self).spec_width() == old(self).spec_width(),
            final(self).spec_height() == old(self).spec_height(),
            final(self).current() == next_generation(
                old(self).current(),
                old(self).spec_width() as int,
                old(self).spec_height() as int,
            ),
            final(self).previous() == old(self).current(),
            r == any_alive(final(self).current()),
    {
        let width = self.width;
        let height = self.height;
        let max_col = width - 1;
        let max_row = height - 1;
        let ghost cells = self.cells@;
        let ghost next = next_generation(cells, width as int, height as int);
        let mut has_alive = false;
        let mut index: usize = 0;
        let mut row: usize = 0;
        while row < height
            invariant
                self.wf(),
                self.width == width,
                self.height == height,
                max_col == width - 1,
                max_row == height - 1,
                self.cells@ == cells,
                next == next_generation(cells, width as int, height as int),
                row <= height,
                index == row * width,
                index <= width * height,
                forall|j: int| 0 <= j < index ==> self.swap_cells@[j] == next[j],
                has_alive == exists|j: int| 0 <= j < index && self.swap_cells@[j] == CellValue::Alive,
            decreases height - row,
        {
            let mut col: usize = 0;
            proof {
                lemma_index_in_grid(row as int, 0, width as int, height as int);
            }
            while col < width
                invariant
                    self.wf(),
                    self.width == width,
                    self.height == height,
                    max_col == width - 1,
                    max_row == height - 1,
                    self.cells@ == cells,
                    next == next_generation(cells, width as int, height as int),
                    row < height,
                    col <= width,
                    index == row * width + col,
                    (row + 1) * width <= width * height,
                    forall|j: int| 0 <= j < index ==> self.swap_cells@[j] == next[j],
                    has_alive == exists|j: int| 0 <= j < index && self.swap_cells@[j] == CellValue::Alive,
                decreases width - col,
            {
                proof {
                    lemma_index_in_grid(row as int, col as int, width as int, height as int);
                    lemma_fundamental_div_mod_converse(index as int, width as int, row as int, col as int);
                }
                let value = self.cells[index];
                let live_neighbours = self.count_live_neighbours(row, col, max_row, max_col);
                let new_value = Self::calc_new_value(value, live_neighbours);
                let ghost before = self.swap_cells@;
                self.swap_cells.set(index, new_value);
                has_alive = has_alive || new_value == CellValue::Alive;
                proof {
                    assert forall|j: int| 0 <= j < index + 1 implies self.swap_cells@[j] == next[j] by {
                        if j < index {
                            assert(before[j] == next[j]);
                        }
                    }
                    if has_alive {
                        if new_value != CellValue::Alive {
                            let j = choose|j: int| 0 <= j < index && before[j] == CellValue::Alive;
                            assert(self.swap_cells@[j] == CellValue::Alive);
                        } else {
                            assert(self.swap_cells@[index as int] == CellValue::Alive);
                        }
                    } else {
                        assert forall|j: int| 0 <= j < index + 1 implies self.swap_cells@[j] != CellValue::Alive by {
                            if j < index {
                                assert(before[j] != CellValue::Alive);
                            }
                        }
                    }
                }
                index = index + 1;
                col = col + 1;
            }
            row = row + 1;
        }
        proof {
            assert(index == width * height) by (nonlinear_arith)
                requires
                    index == row * width,
                    row == height,
            ;
            assert(self.swap_cells@ =~= next);
        }
        core::mem::swap(&mut self.cells, &mut self.swap_cells);
        has_alive
    }

    /// Number of live neighbours of (`row`, `col`), found with wrap-around
    /// index arithmetic and no division.
    pub fn count_live_neighbours(&self, row: usize, col: usize, max_row: usize, max_col: usize) -> (r: u8)
        requires
            self.wf(),
            max_row == self.spec_height() - 1,
            max_col == self.spec_width() - 1,
            row <= max_row,
            col <= max_col,
        ensures
            r == live_neighbours(self.current(), self.spec_width() as int, self.spec_height() as int, row as int, col as int),
            r <= 8,
    {
        let row_top = Self::prev_coord_wrapped(row, max_row);
        let row_bottom = Self::next_coord_wrapped(row, max_row);
        let col_left = Self::prev_coord_wrapped(col, max_col);
        let col_right = Self::next_coord_wrapped(col, max_col);
        proof {
            lemma_small_mod(row as nat, self.height as nat);
            lemma_small_mod(col as nat, self.width as nat);
        }
        let mut count: u8 = 0;
        count = count + self.cells[self.coords_to_index_unchecked(row_top, col_left)].alive_count();
        count = count + self.cells[self.coords_to_index_unchecked(row_top, col)].alive_count();
        count = count + self.cells[self.coords_to_index_unchecked(row_top, col_right)].alive_count();
        count = count + self.cells[self.coords_to_index_unchecked(row, col_left)].alive_count();
        count = count + self.cells[self.coords_to_index_unchecked(row, col_right)].alive_count();
        count = count + self.cells[self.coords_to_index_unchecked(row_bottom, col_left)].alive_count();
        count = count + self.cells[self.coords_to_index_unchecked(row_bottom, col)].alive_count();
        count = count + self.cells[self.coords_to_index_unchecked(row_bottom, col_right)].alive_count();
        count
    }

    /// Number of live neighbours of (`row`, `col`), found with modulo
    /// arithmetic over the nine surrounding offsets. Slower than the step's own
    /// count; it is there to cross-check it.
    pub fn count_live_neighbours_slow(&self, row: usize, col: usize) -> (r: u8)
        requires
            self.wf(),
            row < self.spec_height(),
            col < self.spec_width(),
        ensures
            r == live_neighbours(self.current(), self.spec_width() as int, self.spec_height() as int, row as int, col as int),
    {
        let width = self.width;
        let height = self.height;
        let ghost cells = self.cells@;
        let deltas_row: [usize; 3] = [height - 1, 0, 1];
        let deltas_col: [usize; 3] = [width - 1, 0, 1];
        let mut count: u8 = 0;
        let mut i: usize = 0;
        while i < 3
            invariant
                self.wf(),
                width == self.width,
                height == self.height,
                cells == self.cells@,
                row < height,
                col < width,
                deltas_row@ == seq![(height - 1) as usize, 0usize, 1usize],
                deltas_col@ == seq![(width - 1) as usize, 0usize, 1usize],
                i <= 3,
                count <= 3 * i,
                count == ring_sum(cells, width as int, height as int, row as int, col as int, (3 * i) as nat),
            decreases 3 - i,
        {
            let mut j: usize = 0;
            while j < 3
                invariant
                    self.wf(),
                    width == self.width,
                    height == self.height,
                    cells == self.cells@,
                    row < height,
                    col < width,
                    deltas_row@ == seq![(height - 1) as usize, 0usize, 1usize],
                    deltas_col@ == seq![(width - 1) as usize, 0usize, 1usize],
                    i < 3,
                    j <= 3,
                    count <= 3 * i + j,
                    count == ring_sum(cells, width as int, height as int, row as int, col as int, (3 * i + j) as nat),
                decreases 3 - j,
            {
                let k: usize = 3 * i + j;
                assert(k / 3 == i && k % 3 == j);
                if !(i == 1 && j == 1) {
                    let delta_row = deltas_row[i];
                    let delta_col = deltas_col[j];
                    let check_row = ((row as u128 + delta_row as u128) % (height as u128)) as usize;
                    let check_col = ((col as u128 + delta_col as u128) % (width as u128)) as usize;
                    let check_index = self.coords_to_index_unchecked(check_row, check_col);
                    count = count + self.cells[check_index].alive_count();
                }
                j = j + 1;
            }
            i = i + 1;
        }
        proof {
            lemma_ring_sum(cells, width as int, height as int, row as int, col as int);
        }
        count
    }

    /// Reads a grid from its text form: `#` for a live cell, `_` for a dead
    /// one, one line per row, whitespace around the text and around each line
    /// ignored. The first line fixes the width.
    pub fn from_str(text: &str) -> (r: Result<Field, ParseError>)
        ensures
            match parse_text(text@) {
                Ok((width, height, cells)) => r is Ok && r->Ok_0.wf() && r->Ok_0.spec_width() == width
                    && r->Ok_0.spec_height() == height && r->Ok_0.current() == cells
                    && r->Ok_0.current().len() == width * height
                    && r->Ok_0.previous() == all_dead(width * height),
                Err(e) => r == Err::<Field, ParseError>(e),
            },
    {
        let chars = chars_of(text);
        let (start, end) = trim_bounds(chars.as_slice());
        if start == end {
            return Err(ParseError::EmptyInput);
        }
        let t = slice_subrange(chars.as_slice(), start, end);
        let ghost lines = split_lines(t@);
        let ghost first_width = trim(lines[0]).len();
        proof {
            lemma_trim_first(text@);
            lemma_split_len(t@);
        }
        let mut cells: Vec<CellValue> = Vec::new();
        let mut width: usize = 0;
        let mut height: usize = 0;
        let mut line_start: usize = 0;
        let mut i: usize = 0;
        loop
            invariant_except_break
                line_start <= i <= t@.len(),
                split_lines(t@.take(i as int)).len() == height + 1,
                split_lines(t@.take(i as int)).last() == t@.subrange(line_start as int, i as int),
                decode_lines(split_lines(t@.take(i as int)).drop_last(), width as nat) == Ok::<Seq<CellValue>, ParseError>(cells@),
                height > 0 ==> width == trim(split_lines(t@.take(i as int))[0]).len(),
                height == 0 ==> line_start == 0,
            invariant
                t@ == trim(text@),
                t@.len() > 0,
                !is_whitespace(t@[0]),
                lines == split_lines(t@),
                lines.len() >= 1,
                first_width == trim(lines[0]).len(),
                height > 0 ==> width > 0,
                cells@.len() == height * width,
            ensures
                decode_lines(lines, width as nat) == Ok::<Seq<CellValue>, ParseError>(cells@),
                height == lines.len(),
                width == trim(lines[0]).len(),
                width > 0,
            decreases t@.len() - i,
        {
            if i == t.len() || t[i] == '\n' {
                let ghost processed = split_lines(t@.take(i as int));
                proof {
                    if i < t.len() {
                        assert(t@.take(i + 1).drop_last() =~= t@.take(i as int));
                        lemma_split_prefix(t@, i + 1);
                        lemma_split_len(t@.take(i as int));
                        assert(lines.take(processed.len() as int) =~= processed);
                    } else {
                        assert(t@.take(i as int) =~= t@);
                    }
                    assert(processed[0] == lines[0]);
                    assert(processed.drop_last().push(processed.last()) =~= processed);
                    if height == 0 {
                        assert(processed.drop_last() =~= Seq::<Seq<char>>::empty());
                        assert(cells@ =~= Seq::<CellValue>::empty());
                    }
                    assert(decode_lines(processed.drop_last(), first_width) == Ok::<Seq<CellValue>, ParseError>(cells@));
                }
                let line = slice_subrange(t, line_start, i);
                let mut row = match Self::from_str_line(line) {
                    Ok(row) => row,
                    Err(e) => {
                        proof {
                            assert(decode_lines(processed, first_width) == Err::<Seq<CellValue>, ParseError>(e));
                            if i < t.len() {
                                lemma_decode_error_prefix(lines, processed.len() as int, first_width);
                            } else {
                                assert(processed == lines);
                            }
                        }
                        return Err(e);
                    },
                };
                if height == 0 {
                    proof {
                        if i == 0 {
                            assert(t@[0] == '\n');
                        }
                        assert(line@[0] == t@[0]);
                        lemma_trim_nonempty(line@);
                    }
                    width = row.len();
                }
                assert(width == first_width);
                if row.len() != width {
                    proof {
                        assert(decode_lines(processed, first_width) == Err::<Seq<CellValue>, ParseError>(ParseError::InconsistentRowWidth));
                        if i < t.len() {
                            lemma_decode_error_prefix(lines, processed.len() as int, first_width);
                        } else {
                            assert(processed == lines);
                        }
                    }
                    return Err(ParseError::InconsistentRowWidth);
                }
                let ghost old_cells = cells@;
                cells.append(&mut row);
                let cells_len = cells.len();
                proof {
                    assert(decode_lines(processed, first_width) == Ok::<Seq<CellValue>, ParseError>(cells@));
                    if i < t.len() {
                        assert(split_lines(t@.take(i + 1)) == processed.push(Seq::empty()));
                        assert(processed.push(Seq::empty()).drop_last() =~= processed);
                    } else {
                        assert(processed == lines);
                    }
                    assert((height + 1) * width == height * width + width) by (nonlinear_arith);
                    assert(cells@.len() == height * width + width);
                    assert(cells@.len() == cells_len);
                    assert(height + 1 <= (height + 1) * width) by (nonlinear_arith)
                        requires
                            width > 0,
                    ;
                }
                height = height + 1;
                if i == t.len() {
                    break;
                }
                line_start = i + 1;
                proof {
                    assert(t@.subrange(line_start as int, line_start as int) =~= Seq::<char>::empty());
                }
            } else {
                proof {
                    assert(t@.take(i + 1).drop_last() =~= t@.take(i as int));
                    lemma_split_len(t@.take(i as int));
                    assert(t@.subrange(line_start as int, i + 1) =~= t@.subrange(line_start as int, i as int).push(t@[i as int]));
                    assert(split_lines(t@.take(i + 1)).drop_last() =~= split_lines(t@.take(i as int)).drop_last());
                }
            }
            i = i + 1;
        }
        proof {
            lemma_decode_len(lines, width as nat);
            assert(width * height == height * width) by (nonlinear_arith);
        }
        let swap_cells = vec![CellValue::Dead; cells.len()];
        assert(swap_cells@ =~= all_dead((width * height) as nat));
        Ok(Field { width, height, cells, swap_cells })
    }

    /// The text form of the current generation: one line per row, `#` for a
    /// live cell and `_` for a dead one, each line ended by a line break.
    pub fn to_string(&self) -> (r: String)
        requires
            self.wf(),
        ensures
            r@ == serialize_rows(self.current(), self.spec_width(), self.spec_height()),
    {
        let width = self.width;
        let height = self.height;
        let ghost cells = self.cells@;
        let mut out = String::new();
        let mut index: usize = 0;
        let mut row: usize = 0;
        while row < height
            invariant
                self.wf(),
                width == self.width,
                height == self.height,
                cells == self.cells@,
                row <= height,
                index == row * width,
                out@ == serialize_rows(cells, width as nat, row as nat),
            decreases height - row,
        {
            let mut col: usize = 0;
            proof {
                lemma_index_in_grid(row as int, 0, width as int, height as int);
            }
            while col < width
                invariant
                    self.wf(),
                    width == self.width,
                    height == self.height,
                    cells == self.cells@,
                    row < height,
                    col <= width,
                    index == row * width + col,
                    (row + 1) * width <= width * height,
                    out@ == serialize_rows(cells, width as nat, row as nat) + cells.subrange(
                        row * width,
                        row * width + col,
                    ).map_values(|v: CellValue| encode_cell(v)),
                decreases width - col,
            {
                proof {
                    lemma_index_in_grid(row as int, col as int, width as int, height as int);
                    reveal_strlit("#");
                    reveal_strlit("_");
                }
                let ghost before = out@;
                if self.cells[index] == CellValue::Alive {
                    out.append("#");
                } else {
                    out.append("_");
                }
                proof {
                    assert(cells.subrange(row * width, row * width + col + 1).map_values(
                        |v: CellValue| encode_cell(v),
                    ) =~= cells.subrange(row * width, row * width + col).map_values(
                        |v: CellValue| encode_cell(v),
                    ).push(encode_cell(cells[index as int])));
                    assert(out@ =~= before + seq![encode_cell(cells[index as int])]);
                }
                index = index + 1;
                col = col + 1;
            }
            let ghost before = out@;
            proof {
                reveal_strlit("\n");
            }
            out.append("\n");
            proof {
                assert(out@ =~= before + seq!['\n']);
                let next_rows = (row + 1) as nat;
                assert((next_rows - 1) as nat == row as nat);
                assert(next_rows * width == row * width + width);
            }
            row = row + 1;
        }
        out
    }

    /// Reads one line of the text form, trimmed, as a row of cells.
    fn from_str_line(line: &[char]) -> (r: Result<Vec<CellValue>, ParseError>)
        ensures
            is_cell_text(trim(line@)) ==> r is Ok && r->Ok_0@ == decode_row(trim(line@)),
            !is_cell_text(trim(line@)) ==> r == Err::<Vec<CellValue>, ParseError>(ParseError::InvalidCharacter),
    {
        let (start, end) = trim_bounds(line);
        let ghost trimmed = trim(line@);
        let mut row: Vec<CellValue> = Vec::with_capacity(end - start);
        let mut i: usize = start;
        while i < end
            invariant
                start <= i <= end <= line@.len(),
                trimmed == line@.subrange(start as int, end as int),
                trimmed == trim(line@),
                row@ == decode_row(line@.subrange(start as int, i as int)),
                forall|j: int| start <= j < i ==> line@[j] == '#' || line@[j] == '_',
            decreases end - i,
        {
            let c = line[i];
            let value = if c == '#' {
                CellValue::Alive
            } else if c == '_' {
                CellValue::Dead
            } else {
                proof {
                    let k = (i - start) as int;
                    assert(trimmed[k] == c);
                    assert(!(trimmed[k] == '#' || trimmed[k] == '_'));
                }
                return Err(ParseError::InvalidCharacter);
            };
            row.push(value);
            assert(decode_row(line@.subrange(start as int, i + 1)) =~= decode_row(line@.subrange(start as int, i as int)).push(value));
            i = i + 1;
        }
        assert(line@.subrange(start as int, i as int) =~= trimmed);
        Ok(row)
    }

    /// The coordinate after `value` on a ring of `max_value + 1` positions.
    fn next_coord_wrapped(value: usize, max_value: usize) -> (r: usize)
        requires
            value <= max_value,
            max_value < usize::MAX,
        ensures
            r == (value + 1) % (max_value + 1),
            r <= max_value,
    {
        if value >= max_value {
            proof {
                lemma_mod_self_0(max_value + 1);
            }
            0
        } else {
            proof {
                lemma_small_mod((value + 1) as nat, (max_value + 1) as nat);
            }
            value + 1
        }
    }

    /// The coordinate before `value` on a ring of `max_value + 1` positions.
    fn prev_coord_wrapped(value: usize, max_value: usize) -> (r: usize)
        requires
            value <= max_value,
            max_value < usize::MAX,
        ensures
            r == (value - 1) % (max_value + 1),
            r <= max_value,
    {
        if value == 0 {
            proof {
                lemma_mod_add_multiples_vanish(-1, max_value + 1);
                lemma_small_mod(max_value as nat, (max_value + 1) as nat);
            }
            max_value
        } else {
            proof {
                lemma_small_mod((value - 1) as nat, (max_value + 1) as nat);
            }
            value - 1
        }
    }

    /// The rule of the game applied to one cell.
    fn calc_new_value(old_value: CellValue, live_neighbours: u8) -> (r: CellValue)
        ensures
            r == next_state(old_value, live_neighbours as nat),
    {
        match old_value {
            CellValue::Alive => if (live_neighbours == 2) || (live_neighbours == 3) {
                CellValue::Alive
            } else {
                CellValue::Dead
            },
            CellValue::Dead => if live_neighbours == 3 {
                CellValue::Alive
            } else {
                CellValue::Dead
            },
        }
    }
}

} // verus!
