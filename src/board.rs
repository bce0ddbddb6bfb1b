//! The grid of cells, neighbour counting and the generation step.
use crate::random::{cell_seed, draw_from_entropy, draw_seeded, seeded_chance};
use crate::snapshot::{
    chars_of, decode, encode, encode_row, parse_cells, render_row, render_rows, snapshot_error,
    snapshot_valid, SnapshotError,
};
use vstd::prelude::*;

verus! {

broadcast use vstd::string::group_string_axioms;

/// The state of a single cell.
#[derive(Clone, Copy, PartialEq, Eq, Structural)]
pub enum State {
    Alive,
    Dead,
}

/// One cell of the board.
#[derive(Clone, Copy)]
pub struct Cell {
    state: State,
}

impl Cell {
    pub closed spec fn spec_alive(&self) -> bool {
        self.state == State::Alive
    }

    pub fn new(state: State) -> (r: Cell)
        ensures
            r.spec_alive() == (state == State::Alive),
    {
        Cell { state }
    }

    pub fn state(&self) -> (r: State)
        ensures
            (r == State::Alive) == self.spec_alive(),
    {
        self.state
    }

    #[verifier::when_used_as_spec(spec_alive)]
    pub fn is_alive(&self) -> (r: bool)
        ensures
            r == self.spec_alive(),
    {
        match self.state {
            State::Alive => true,
            State::Dead => false,
        }
    }
}

/// The grid as booleans: `true` for a living cell.
pub open spec fn grid_of(cells: Seq<Vec<Cell>>) -> Seq<Seq<bool>> {
    cells.map_values(|row: Vec<Cell>| row@.map_values(|c: Cell| c.spec_alive()))
}

/// Every row of `g` has `width` cells.
pub open spec fn rectangular(g: Seq<Seq<bool>>, width: nat) -> bool {
    forall|r: int| 0 <= r < g.len() ==> #[trigger] g[r].len() == width
}

/// `(r, c)` lies on the grid.
pub open spec fn in_grid(g: Seq<Seq<bool>>, r: int, c: int) -> bool {
    0 <= r < g.len() && 0 <= c < g[r].len()
}

/// `(r, c)` lies on the grid and holds a living cell.
pub open spec fn alive_at(g: Seq<Seq<bool>>, r: int, c: int) -> bool {
    in_grid(g, r, c) && g[r][c]
}

/// One for `true`, zero for `false`.
pub open spec fn one_if(b: bool) -> nat {
    if b {
        1
    } else {
        0
    }
}

/// The number of living cells among the eight positions around `(i, j)`;
/// positions off the grid are not counted (no wrapping at the edges).
pub open spec fn neighbor_count(g: Seq<Seq<bool>>, i: int, j: int) -> nat {
    one_if(alive_at(g, i - 1, j - 1)) + one_if(alive_at(g, i - 1, j)) + one_if(
        alive_at(g, i - 1, j + 1),
    ) + one_if(alive_at(g, i, j - 1)) + one_if(alive_at(g, i, j + 1)) + one_if(
        alive_at(g, i + 1, j - 1),
    ) + one_if(alive_at(g, i + 1, j)) + one_if(alive_at(g, i + 1, j + 1))
}

/// The number of the eight positions around `(i, j)` that lie on the grid.
pub open spec fn candidate_count(g: Seq<Seq<bool>>, i: int, j: int) -> nat {
    one_if(in_grid(g, i - 1, j - 1)) + one_if(in_grid(g, i - 1, j)) + one_if(
        in_grid(g, i - 1, j + 1),
    ) + one_if(in_grid(g, i, j - 1)) + one_if(in_grid(g, i, j + 1)) + one_if(
        in_grid(g, i + 1, j - 1),
    ) + one_if(in_grid(g, i + 1, j)) + one_if(in_grid(g, i + 1, j + 1))
}

/// The offset scanned at step `k` of the 3x3 window (row `i + 1 - k / 3`,
/// column `j + 1 - k % 3`) counts when it is not the centre and holds a living cell.
pub open spec fn window_term(g: Seq<Seq<bool>>, i: int, j: int, k: int) -> nat {
    if k == 4 {
        0
    } else {
        one_if(alive_at(g, i + 1 - k / 3, j + 1 - k % 3))
    }
}

/// The living cells found in the first `k` steps of the window scan.
pub open spec fn window_sum(g: Seq<Seq<bool>>, i: int, j: int, k: int) -> nat
    decreases k,
{
    if k <= 0 {
        0
    } else {
        window_sum(g, i, j, k - 1) + window_term(g, i, j, k - 1)
    }
}

proof fn lemma_window_sum_full(g: Seq<Seq<bool>>, i: int, j: int)
    ensures
        window_sum(g, i, j, 9) == neighbor_count(g, i, j),
{
    reveal_with_fuel(window_sum, 10);
}

/// A cell has at most eight living neighbours, never more than it has
/// neighbouring positions on the grid, and none when no cell around it lives.
pub proof fn lemma_neighbor_count_bounds(g: Seq<Seq<bool>>, i: int, j: int)
    ensures
        neighbor_count(g, i, j) <= 8,
        neighbor_count(g, i, j) <= candidate_count(g, i, j),
        (forall|a: int, b: int|
            -1 <= a <= 1 && -1 <= b <= 1 && !(a == 0 && b == 0) ==> !#[trigger] alive_at(
                g,
                i + a,
                j + b,
            )) ==> neighbor_count(g, i, j) == 0,
{
    if forall|a: int, b: int|
        -1 <= a <= 1 && -1 <= b <= 1 && !(a == 0 && b == 0) ==> !#[trigger] alive_at(g, i + a, j + b) {
        assert(!alive_at(g, i + -1, j + -1));
        assert(!alive_at(g, i + -1, j + 0));
        assert(!alive_at(g, i + -1, j + 1));
        assert(!alive_at(g, i + 0, j + -1));
        assert(!alive_at(g, i + 0, j + 1));
        assert(!alive_at(g, i + 1, j + -1));
        assert(!alive_at(g, i + 1, j + 0));
        assert(!alive_at(g, i + 1, j + 1));
    }
}

/// A corner cell has at most three neighbouring positions on the grid, so
/// at most three living neighbours.
pub proof fn lemma_corner_neighbors(g: Seq<Seq<bool>>)
    ensures
        candidate_count(g, 0, 0) <= 3,
        neighbor_count(g, 0, 0) <= 3,
{
    lemma_neighbor_count_bounds(g, 0, 0);
}

/// The state of `(i, j)` in the next generation: a living cell survives when
/// its neighbour count lies in `[underpopulation, overpopulation]`, a dead
/// cell comes alive when the count equals `repopulation`.
pub open spec fn next_state(
    g: Seq<Seq<bool>>,
    i: int,
    j: int,
    overpopulation: nat,
    underpopulation: nat,
    repopulation: nat,
) -> bool {
    let n = neighbor_count(g, i, j);
    if g[i][j] {
        underpopulation <= n <= overpopulation
    } else {
        n == repopulation
    }
}

/// The grid after one generation, every cell computed from `g`.
pub open spec fn next_grid(
    g: Seq<Seq<bool>>,
    overpopulation: nat,
    underpopulation: nat,
    repopulation: nat,
) -> Seq<Seq<bool>> {
    Seq::new(
        g.len(),
        |i: int|
            Seq::new(
                g[i].len(),
                |j: int| next_state(g, i, j, overpopulation, underpopulation, repopulation),
            ),
    )
}

/// What a board is, mathematically: its width and its rows of cells,
/// `true` for a living one. The height is `rows.len()`.
pub struct BoardView {
    pub width: nat,
    pub rows: Seq<Seq<bool>>,
}

/// Every row of the board has `width` cells.
pub open spec fn well_formed(v: BoardView) -> bool {
    rectangular(v.rows, v.width)
}

/// A rectangular grid of cells. Its dimensions never change after
/// construction.
pub struct Board {
    cells: Vec<Vec<Cell>>,
    width: usize,
    height: usize,
}

impl View for Board {
    type V = BoardView;

    closed spec fn view(&self) -> BoardView {
        BoardView { width: self.width as nat, rows: grid_of(self.cells@) }
    }
}

/// What holds of every board that `Board::init` can return: its dimensions;
/// with a nonzero seed, each cell is the draw of a generator seeded for that
/// cell; with a ratio of zero every cell is dead, with a ratio of one every
/// cell is alive.
pub open spec fn init_outcome(
    b: BoardView,
    width: nat,
    height: nat,
    numerator: u32,
    denominator: u32,
    seed: u64,
) -> bool {
    &&& b.width == width
    &&& b.rows.len() == height
    &&& well_formed(b)
    &&& seed != 0 ==> forall|i: int, j: int|
        0 <= i < height && 0 <= j < width ==> #[trigger] b.rows[i][j] == seeded_chance(
            cell_seed(seed, i as nat, j as nat),
            numerator,
            denominator,
        )
    &&& numerator == 0 ==> forall|i: int, j: int|
        0 <= i < height && 0 <= j < width ==> !#[trigger] b.rows[i][j]
    &&& numerator == denominator ==> forall|i: int, j: int|
        0 <= i < height && 0 <= j < width ==> #[trigger] b.rows[i][j]
}

/// With a nonzero seed, two boards built from the same arguments are equal
/// cell for cell.
pub proof fn lemma_seeded_init_deterministic(
    b1: BoardView,
    b2: BoardView,
    width: nat,
    height: nat,
    numerator: u32,
    denominator: u32,
    seed: u64,
)
    requires
        seed != 0,
        init_outcome(b1, width, height, numerator, denominator, seed),
        init_outcome(b2, width, height, numerator, denominator, seed),
    ensures
        b1 == b2,
{
    assert forall|i: int| 0 <= i < height implies #[trigger] b1.rows[i] == b2.rows[i] by {
        assert forall|j: int| 0 <= j < width implies b1.rows[i][j] == b2.rows[i][j] by {
            assert(b1.rows[i][j] == seeded_chance(cell_seed(seed, i as nat, j as nat), numerator, denominator));
            assert(b2.rows[i][j] == seeded_chance(cell_seed(seed, i as nat, j as nat), numerator, denominator));
        }
        assert(b1.rows[i] =~= b2.rows[i]);
    }
    assert(b1.rows =~= b2.rows);
}

impl Board {
    #[verifier::type_invariant]
    closed spec fn inv(&self) -> bool {
        &&& self.cells@.len() == self.height
        &&& forall|r: int| 0 <= r < self.cells@.len() ==> #[trigger] self.cells@[r]@.len() == self.width
    }

    /// Counts the living cells around `(i, j)`, skipping positions off the grid.
    pub fn count_alive_neightbors(cells: &[Vec<Cell>], i: usize, j: usize) -> (r: usize)
        requires
            i < cells@.len(),
            j < cells@[i as int]@.len(),
            rectangular(grid_of(cells@), cells@[i as int]@.len()),
        ensures
            r == neighbor_count(grid_of(cells@), i as int, j as int),
            r <= 8,
    {
        let ghost g = grid_of(cells@);
        let rows = cells.len();
        let cols = cells[i].len();
        let mut alive: usize = 0;
        let mut a: usize = 0;
        while a < 3
            invariant
                a <= 3,
                g == grid_of(cells@),
                i < rows == cells@.len() == g.len(),
                j < cols == cells@[i as int]@.len(),
                rectangular(g, cols as nat),
                alive == window_sum(g, i as int, j as int, 3 * a),
                alive <= 3 * a,
            decreases 3 - a,
        {
            let mut b: usize = 0;
            while b < 3
                invariant
                    a < 3,
                    b <= 3,
                    g == grid_of(cells@),
                    i < rows == cells@.len() == g.len(),
                    j < cols == cells@[i as int]@.len(),
                    rectangular(g, cols as nat),
                    alive == window_sum(g, i as int, j as int, 3 * a + b),
                    alive <= 3 * a + b,
                decreases 3 - b,
            {
                let ghost k = 3 * a + b;
                assert(k / 3 == a && k % 3 == b);
                if !(a == 1 && b == 1) && i + 1 >= a && j + 1 >= b {
                    let row = i + 1 - a;
                    let col = j + 1 - b;
                    if row < rows && col < cols {
                        assert(g[row as int].len() == cols);
                        if cells[row][col].is_alive() {
                            alive = alive + 1;
                        }
                    }
                }
                b = b + 1;
            }
            a = a + 1;
        }
        proof {
            lemma_window_sum_full(g, i as int, j as int);
        }
        alive
    }

    /// Draws the state of the cell in row `row`, column `col`: alive with
    /// probability `numerator / denominator`. A zero seed draws from the
    /// operating system's entropy; any other seed draws from a fresh
    /// generator seeded with `seed * row + col` (wrapping).
    fn random_state(numerator: u32, denominator: u32, seed: u64, row: usize, col: usize) -> (r: State)
        requires
            0 < denominator,
            numerator <= denominator,
        ensures
            seed != 0 ==> ((r == State::Alive) == seeded_chance(
                cell_seed(seed, row as nat, col as nat),
                numerator,
                denominator,
            )),
            numerator == 0 ==> r == State::Dead,
            numerator == denominator ==> r == State::Alive,
    {
        let alive = if seed == 0 {
            draw_from_entropy(numerator, denominator)
        } else {
            draw_seeded(seed.wrapping_mul(row as u64).wrapping_add(col as u64), numerator, denominator)
        };
        if alive {
            State::Alive
        } else {
            State::Dead
        }
    }

    fn generate_cells(width: usize, height: usize, numerator: u32, denominator: u32, seed: u64) -> (r: Vec<Vec<Cell>>)
        requires
            0 < denominator,
            numerator <= denominator,
        ensures
            r@.len() == height,
            forall|i: int| 0 <= i < height ==> #[trigger] r@[i]@.len() == width,
            init_outcome(
                BoardView { width: width as nat, rows: grid_of(r@) },
                width as nat,
                height as nat,
                numerator,
                denominator,
                seed,
            ),
    {
        let mut cells: Vec<Vec<Cell>> = Vec::new();
        let mut i: usize = 0;
        while i < height
            invariant
                0 < denominator,
                numerator <= denominator,
                i <= height,
                cells@.len() == i,
                forall|r: int| 0 <= r < i ==> #[trigger] cells@[r]@.len() == width,
                forall|r: int, c: int|
                    0 <= r < i && 0 <= c < width ==> {
                        let alive = #[trigger] cells@[r]@[c].spec_alive();
                        &&& seed != 0 ==> alive == seeded_chance(
                            cell_seed(seed, r as nat, c as nat),
                            numerator,
                            denominator,
                        )
                        &&& numerator == 0 ==> !alive
                        &&& numerator == denominator ==> alive
                    },
            decreases height - i,
        {
            let mut row: Vec<Cell> = Vec::new();
            let mut j: usize = 0;
            while j < width
                invariant
                    0 < denominator,
                    numerator <= denominator,
                    i < height,
                    j <= width,
                    row@.len() == j,
                    forall|c: int|
                        0 <= c < j ==> {
                            let alive = #[trigger] row@[c].spec_alive();
                            &&& seed != 0 ==> alive == seeded_chance(
                                cell_seed(seed, i as nat, c as nat),
                                numerator,
                                denominator,
                            )
                            &&& numerator == 0 ==> !alive
                            &&& numerator == denominator ==> alive
                        },
                decreases width - j,
            {
                row.push(Cell { state: Self::random_state(numerator, denominator, seed, i, j) });
                j = j + 1;
            }
            cells.push(row);
            i = i + 1;
        }
        proof {
            let g = grid_of(cells@);
            assert forall|r: int| 0 <= r < g.len() implies #[trigger] g[r].len() == width by {
                assert(cells@[r]@.len() == width);
            }
            assert forall|r: int, c: int| 0 <= r < height && 0 <= c < width implies #[trigger] g[r][c]
                == cells@[r]@[c].spec_alive() by {
                assert(cells@[r]@.len() == width);
            }
        }
        cells
    }

    /// Builds a `height` by `width` board whose cells are each alive with
    /// probability `numerator / denominator`, drawn independently per cell
    /// (see `random_state`). A zero seed gives a different board on every
    /// call; a nonzero seed gives the same board for the same arguments.
    pub fn init(width: usize, height: usize, numerator: u32, denominator: u32, seed: u64) -> (r: Board)
        requires
            0 < denominator,
            numerator <= denominator,
        ensures
            init_outcome(r@, width as nat, height as nat, numerator, denominator, seed),
    {
        let cells = Self::generate_cells(width, height, numerator, denominator, seed);
        Board { cells, width, height }
    }

    /// Reads a board from its snapshot text. The board is as wide as the
    /// first line and has one row per line; rows shorter than the first are
    /// filled with dead cells. Fails on an empty text, on a character other
    /// than `X`, a space or a newline, and on a row longer than the first.
    pub fn from_snapshot(text: &str) -> (r: Result<Board, SnapshotError>)
        ensures
            r is Ok <==> snapshot_valid(text@),
            match r {
                Ok(b) => b@ == decode(text@) && well_formed(b@),
                Err(e) => snapshot_error(text@, e),
            },
    {
        let chars = chars_of(text);
        match parse_cells(&chars) {
            Ok(cells) => {
                let height = cells.len();
                let width = if height == 0 {
                    0
                } else {
                    cells[0].len()
                };
                assert(width == decode(text@).width);
                let b = Board { cells, width, height };
                assert(b@ =~= decode(text@));
                Ok(b)
            },
            Err(e) => Err(e),
        }
    }

    /// The snapshot text of the board: one line per row, `X` for a living
    /// cell, a space for a dead one, each row ended by a newline.
    pub fn to_snapshot(&self) -> (r: String)
        ensures
            r@ == encode(self@.rows),
    {
        let ghost g = self@.rows;
        let mut out = String::new();
        let mut i: usize = 0;
        while i < self.cells.len()
            invariant
                i <= g.len() == self.cells@.len(),
                g == grid_of(self.cells@),
                out@ == encode(g.take(i as int)),
            decreases g.len() - i,
        {
            let row = &self.cells[i];
            let mut j: usize = 0;
            while j < row.len()
                invariant
                    i < g.len() == self.cells@.len(),
                    g == grid_of(self.cells@),
                    row@ == self.cells@[i as int]@,
                    j <= row@.len(),
                    out@ == encode(g.take(i as int)) + encode_row(g[i as int].take(j as int)),
                decreases row@.len() - j,
            {
                if row[j].is_alive() {
                    proof {
                        reveal_strlit("X");
                    }
                    out.append("X");
                } else {
                    proof {
                        reveal_strlit(" ");
                    }
                    out.append(" ");
                }
                assert(encode_row(g[i as int].take(j + 1)) =~= encode_row(g[i as int].take(j as int)).push(
                    if g[i as int][j as int] { 'X' } else { ' ' },
                ));
                assert(out@ =~= encode(g.take(i as int)) + encode_row(g[i as int].take(j + 1)));
                j = j + 1;
            }
            proof {
                reveal_strlit("\n");
            }
            out.append("\n");
            assert(g.take(i + 1).drop_last() =~= g.take(i as int));
            assert(g[i as int].take(j as int) =~= g[i as int]);
            assert(out@ =~= encode(g.take(i + 1)));
            i = i + 1;
        }
        assert(g.take(i as int) =~= g);
        out
    }

    /// The board as drawn on a terminal: two block characters for each living
    /// cell, two spaces for each dead one, each row ended by a newline.
    pub fn render(&self) -> (r: String)
        ensures
            r@ == render_rows(self@.rows),
    {
        let ghost g = self@.rows;
        let mut out = String::new();
        let mut i: usize = 0;
        while i < self.cells.len()
            invariant
                i <= g.len() == self.cells@.len(),
                g == grid_of(self.cells@),
                out@ == render_rows(g.take(i as int)),
            decreases g.len() - i,
        {
            let row = &self.cells[i];
            let mut j: usize = 0;
            while j < row.len()
                invariant
                    i < g.len() == self.cells@.len(),
                    g == grid_of(self.cells@),
                    row@ == self.cells@[i as int]@,
                    j <= row@.len(),
                    out@ == render_rows(g.take(i as int)) + render_row(g[i as int].take(j as int)),
                decreases row@.len() - j,
            {
                if row[j].is_alive() {
                    proof {
                        reveal_strlit("\u{2588}\u{2588}");
                    }
                    out.append("\u{2588}\u{2588}");
                } else {
                    proof {
                        reveal_strlit("  ");
                    }
                    out.append("  ");
                }
                assert(g[i as int].take(j + 1).drop_last() =~= g[i as int].take(j as int));
                assert(out@ =~= render_rows(g.take(i as int)) + render_row(g[i as int].take(j + 1)));
                j = j + 1;
            }
            proof {
                reveal_strlit("\n");
            }
            out.append("\n");
            assert(g.take(i + 1).drop_last() =~= g.take(i as int));
            assert(g[i as int].take(j as int) =~= g[i as int]);
            assert(out@ =~= render_rows(g.take(i + 1)));
            i = i + 1;
        }
        assert(g.take(i as int) =~= g);
        out
    }

    pub fn width(&self) -> (r: usize)
        ensures
            r == self@.width,
    {
        self.width
    }

    pub fn height(&self) -> (r: usize)
        ensures
            r == self@.rows.len(),
    {
        proof {
            use_type_invariant(self);
        }
        self.height
    }

    /// Whether the cell in row `i`, column `j` is alive.
    pub fn is_alive(&self, i: usize, j: usize) -> (r: bool)
        requires
            i < self@.rows.len(),
            j < self@.width,
        ensures
            r == self@.rows[i as int][j as int],
    {
        proof {
            use_type_invariant(self);
        }
        self.cells[i][j].is_alive()
    }

    /// Advances the board by one generation. Every cell's new state is
    /// computed from the grid as it was before the call: the new grid is
    /// built whole and then replaces the old one.
    pub fn next_generation(&mut self, overpopulation: usize, underpopulation: usize, repopulation: usize)
        ensures
            final(self)@.width == old(self)@.width,
            final(self)@.rows == next_grid(
                old(self)@.rows,
                overpopulation as nat,
                underpopulation as nat,
                repopulation as nat,
            ),
            well_formed(final(self)@),
    {
        proof {
            use_type_invariant(&*self);
        }
        let ghost g = self@.rows;
        let ghost over = overpopulation as nat;
        let ghost under = underpopulation as nat;
        let ghost rep = repopulation as nat;
        let width = self.width;
        let height = self.height;
        assert(rectangular(g, width as nat)) by {
            assert forall|r: int| 0 <= r < g.len() implies #[trigger] g[r].len() == width by {
                assert(self.cells@[r]@.len() == width);
            }
        }
        let mut new_cells: Vec<Vec<Cell>> = Vec::new();
        let mut i: usize = 0;
        while i < height
            invariant
                i <= height == self.cells@.len() == g.len(),
                g == grid_of(self.cells@),
                over == overpopulation && under == underpopulation && rep == repopulation,
                rectangular(g, width as nat),
                new_cells@.len() == i,
                forall|r: int| 0 <= r < i ==> #[trigger] new_cells@[r]@.len() == width,
                forall|r: int, c: int|
                    0 <= r < i && 0 <= c < width ==> #[trigger] new_cells@[r]@[c].spec_alive()
                        == next_state(g, r, c, over, under, rep),
            decreases height - i,
        {
            let mut row: Vec<Cell> = Vec::new();
            let mut j: usize = 0;
            while j < width
                invariant
                    i < height == self.cells@.len() == g.len(),
                    j <= width,
                    g == grid_of(self.cells@),
                    over == overpopulation && under == underpopulation && rep == repopulation,
                    rectangular(g, width as nat),
                    row@.len() == j,
                    forall|c: int|
                        0 <= c < j ==> #[trigger] row@[c].spec_alive() == next_state(
                            g,
                            i as int,
                            c,
                            over,
                            under,
                            rep,
                        ),
                decreases width - j,
            {
                assert(g[i as int].len() == width);
                let n = Self::count_alive_neightbors(self.cells.as_slice(), i, j);
                assert(n == neighbor_count(g, i as int, j as int));
                let alive = if self.cells[i][j].is_alive() {
                    underpopulation <= n && n <= overpopulation
                } else {
                    n == repopulation
                };
                assert(g[i as int][j as int] == self.cells@[i as int]@[j as int].spec_alive());
                let cell = Cell { state: if alive { State::Alive } else { State::Dead } };
                row.push(cell);
                j = j + 1;
            }
            new_cells.push(row);
            i = i + 1;
        }
        proof {
            let ng = next_grid(g, over, under, rep);
            assert(grid_of(new_cells@).len() == ng.len());
            assert forall|r: int| 0 <= r < ng.len() implies #[trigger] grid_of(new_cells@)[r] == ng[r] by {
                assert(g[r].len() == width);
                assert(grid_of(new_cells@)[r] =~= ng[r]);
            }
            assert(grid_of(new_cells@) =~= ng);
        }
        self.cells = new_cells;
    }
}

} // verus!
