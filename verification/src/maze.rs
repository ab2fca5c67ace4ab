//! Grid mazes: carving with a randomised depth-first search, and drawing as text.
use rand::seq::SliceRandom;
use rand::Rng;
use vstd::prelude::*;
use vstd::relations::injective_on;
use vstd::set_lib::{lemma_int_range, lemma_map_size, lemma_set_disjoint_lens, set_int_range};
use wyrand::WyRand;

verus! {

/// The random number generator that mazes are carved with.
#[verifier::external_type_specification]
#[verifier::external_body]
pub struct ExWyRand(WyRand);

#[derive(Debug, Clone, Copy, PartialEq, Eq, Structural)]
pub enum Cell {
    Empty,
    Solid,
}

#[derive(Debug, Clone)]
#[non_exhaustive]
pub struct Maze {
    pub cells: Vec<Cell>,
    pub width: u32,
    pub height: u32,
}

/// `rand::Rng::gen_range(0..bound)`: a number below `bound`, drawn from `rng`.
#[verifier::external_body]
fn random_below(rng: &mut WyRand, bound: u32) -> (r: u32)
    requires
        bound > 0,
    ensures
        r < bound,
{
    rng.gen_range(0..bound)
}

/// `rand::seq::SliceRandom::shuffle`: puts the offsets in an order drawn from `rng`; the
/// same offsets stay.
#[verifier::external_body]
fn shuffle_offsets(offsets: &mut [(i32, i32); 4], rng: &mut WyRand)
    ensures
        final(offsets)@.to_multiset() == old(offsets)@.to_multiset(),
{
    offsets.shuffle(rng)
}

/// `c + d` wrapped around to the range of `u32`, as `u32::wrapping_add_signed` computes it.
pub open spec fn wrapping_add_signed(c: u32, d: i32) -> u32 {
    let v = c + d;
    if v < 0 {
        (v + 0x1_0000_0000) as u32
    } else if v > u32::MAX {
        (v - 0x1_0000_0000) as u32
    } else {
        v as u32
    }
}

/// `c + d` clamped to the range of `u32`, as `u32::saturating_add_signed` computes it.
pub open spec fn saturating_add_signed(c: u32, d: i32) -> u32 {
    let v = c + d;
    if v < 0 {
        0
    } else if v > u32::MAX {
        u32::MAX
    } else {
        v as u32
    }
}

fn wrapping_add_signed_exec(c: u32, d: i32) -> (r: u32)
    ensures
        r == wrapping_add_signed(c, d),
{
    let v: i64 = c as i64 + d as i64;
    if v < 0 {
        (v + 0x1_0000_0000i64) as u32
    } else if v > 0xffff_ffffi64 {
        (v - 0x1_0000_0000i64) as u32
    } else {
        v as u32
    }
}

fn saturating_add_signed_exec(c: u32, d: i32) -> (r: u32)
    ensures
        r == saturating_add_signed(c, d),
{
    let v: i64 = c as i64 + d as i64;
    if v < 0 {
        0
    } else if v > 0xffff_ffffi64 {
        u32::MAX
    } else {
        v as u32
    }
}

/// The number of solid cells in `cells`.
pub open spec fn solid_count(cells: Seq<Cell>) -> nat
    decreases cells.len(),
{
    if cells.len() == 0 {
        0
    } else {
        solid_count(cells.drop_last()) + if cells.last() == Cell::Solid {
            1nat
        } else {
            0nat
        }
    }
}

proof fn lemma_solid_count_update(cells: Seq<Cell>, i: int, c: Cell)
    requires
        0 <= i < cells.len(),
    ensures
        solid_count(cells.update(i, c)) + (if cells[i] == Cell::Solid {
            1int
        } else {
            0int
        }) == solid_count(cells) + (if c == Cell::Solid {
            1int
        } else {
            0int
        }),
    decreases cells.len(),
{
    if i < cells.len() - 1 {
        assert(cells.update(i, c).drop_last() =~= cells.drop_last().update(i, c));
        lemma_solid_count_update(cells.drop_last(), i, c);
    } else {
        assert(cells.update(i, c).drop_last() =~= cells.drop_last());
    }
}

/// The text of the first `n` cells of row `y`, each drawn by `piece`.
pub open spec fn row_text(
    cells: Seq<Cell>,
    width: u32,
    y: u32,
    n: int,
    piece: spec_fn(u32, u32, Cell) -> Seq<char>,
) -> Seq<char>
    decreases n,
{
    if n <= 0 {
        Seq::empty()
    } else {
        row_text(cells, width, y, n - 1, piece) + piece(
            (n - 1) as u32,
            y,
            cells[(n - 1) + y * width],
        )
    }
}

/// The text of the first `rows` rows, each followed by a line feed.
pub open spec fn grid_text(
    cells: Seq<Cell>,
    width: u32,
    rows: int,
    piece: spec_fn(u32, u32, Cell) -> Seq<char>,
) -> Seq<char>
    decreases rows,
{
    if rows <= 0 {
        Seq::empty()
    } else {
        (grid_text(cells, width, rows - 1, piece) + row_text(cells, width, (rows - 1) as u32, width as int, piece)).push('\n')
    }
}

/// Every text that `f` returns for a cell is the one that `piece` gives it.
pub open spec fn draws_with<F: Fn(u32, u32, Cell) -> &'static str>(
    f: F,
    piece: spec_fn(u32, u32, Cell) -> Seq<char>,
) -> bool {
    forall|x: u32, y: u32, c: Cell, r: &'static str| #[trigger] call_ensures(f, (x, y, c), r) ==> r@ == piece(x, y, c)
}

/// The default drawing of a cell: two spaces for an empty one, `##` for a solid one.
pub open spec fn default_art(c: Cell) -> Seq<char> {
    match c {
        Cell::Empty => "  "@,
        Cell::Solid => "##"@,
    }
}

impl Maze {
    /// The cells are stored row by row.
    pub open spec fn wf(&self) -> bool {
        self.cells@.len() == self.width * self.height
    }

    pub open spec fn in_bounds(&self, x: u32, y: u32) -> bool {
        x < self.width && y < self.height
    }

    /// Where cell `(x, y)` is stored.
    pub open spec fn index_of(&self, x: u32, y: u32) -> int {
        x + y * self.width
    }

    /// The cell at `(x, y)`, if there is one.
    pub open spec fn cell_at(&self, x: u32, y: u32) -> Option<Cell> {
        if self.in_bounds(x, y) {
            Some(self.cells@[self.index_of(x, y)])
        } else {
            None
        }
    }

    proof fn lemma_index_in_range(&self, x: u32, y: u32)
        requires
            self.wf(),
            self.in_bounds(x, y),
        ensures
            0 <= self.index_of(x, y) < self.cells@.len(),
            0 <= y * self.width <= self.index_of(x, y),
    {
        let w = self.width as int;
        let h = self.height as int;
        assert(x + y * w < w * h) by (nonlinear_arith)
            requires
                0 <= x < w,
                0 <= y < h,
        ;
        assert(0 <= y * w) by (nonlinear_arith)
            requires
                0 <= y,
                0 <= w,
        ;
    }

    /// A maze of `width` by `height` cells, all solid.
    pub fn new(width: u32, height: u32) -> (maze: Self)
        requires
            width * height <= usize::MAX,
        ensures
            maze.wf(),
            maze.width == width,
            maze.height == height,
            forall|i: int| 0 <= i < maze.cells@.len() ==> maze.cells@[i] == Cell::Solid,
    {
        let n = width as usize * height as usize;
        let mut cells: Vec<Cell> = Vec::new();
        while cells.len() < n
            invariant
                cells@.len() <= n,
                forall|i: int| 0 <= i < cells@.len() ==> cells@[i] == Cell::Solid,
            decreases n - cells@.len(),
        {
            cells.push(Cell::Solid);
        }
        Self { cells, width, height }
    }

    fn is_in_bounds(&self, xy: (u32, u32)) -> (r: bool)
        ensures
            r == self.in_bounds(xy.0, xy.1),
    {
        let (x, y) = xy;
        x < self.width && y < self.height
    }

    fn cell_index(&self, xy: (u32, u32)) -> (r: Option<usize>)
        requires
            self.wf(),
        ensures
            r is Some <==> self.in_bounds(xy.0, xy.1),
            r matches Some(i) ==> i < self.cells@.len() && i == self.index_of(xy.0, xy.1),
    {
        if self.is_in_bounds(xy) {
            let (x, y) = xy;
            let n = self.cells.len();
            proof {
                self.lemma_index_in_range(x, y);
                assert((y as usize) as int * (self.width as usize) as int == y * self.width);
            }
            let row: usize = y as usize * self.width as usize;
            Some(x as usize + row)
        } else {
            None
        }
    }

    /// The cell at `xy`, or `None` outside the maze.
    pub fn get(&self, xy: (u32, u32)) -> (cell: Option<Cell>)
        requires
            self.wf(),
        ensures
            cell == self.cell_at(xy.0, xy.1),
    {
        proof {
            if self.in_bounds(xy.0, xy.1) {
                self.lemma_index_in_range(xy.0, xy.1);
            }
        }
        match self.cell_index(xy) {
            Some(i) => Some(self.cells[i]),
            None => None,
        }
    }

    /// Sets the cell at `xy`; outside the maze this does nothing.
    pub fn set(&mut self, xy: (u32, u32), cell: Cell)
        requires
            old(self).wf(),
        ensures
            final(self).wf(),
            final(self).width == old(self).width,
            final(self).height == old(self).height,
            final(self).cells@ == (if old(self).in_bounds(xy.0, xy.1) {
                old(self).cells@.update(old(self).index_of(xy.0, xy.1), cell)
            } else {
                old(self).cells@
            }),
    {
        proof {
            if self.in_bounds(xy.0, xy.1) {
                self.lemma_index_in_range(xy.0, xy.1);
            }
        }
        if let Some(i) = self.cell_index(xy) {
            self.cells.set(i, cell);
        }
    }

    /// How many maze cells (rooms between walls) fit across.
    pub fn maze_width(&self) -> (w: u32)
        ensures
            w == self.width / 2,
    {
        self.width / 2
    }

    /// How many maze cells fit down.
    pub fn maze_height(&self) -> (h: u32)
        ensures
            h == self.height / 2,
    {
        self.height / 2
    }

    /// The grid coordinate of maze cell `x`.
    pub fn maze_cell(x: u32) -> (c: u32)
        requires
            x < 0x8000_0000,
        ensures
            c == 2 * x + 1,
    {
        x * 2 + 1
    }

    /// Appends the maze to `buffer`, row by row, each cell as `render_cell` draws it and each
    /// row ended by a line feed.
    pub fn write_to(&self, buffer: &mut String, render_cell: impl Fn(u32, u32, Cell) -> &'static str)
        requires
            self.wf(),
            forall|x: u32, y: u32, c: Cell| call_requires(render_cell, (x, y, c)),
        ensures
            forall|piece: spec_fn(u32, u32, Cell) -> Seq<char>| draws_with(render_cell, piece)
                ==> final(buffer)@ == old(buffer)@ + grid_text(self.cells@, self.width, self.height as int, piece),
    {
        let ghost start = buffer@;
        let mut y: u32 = 0;
        while y < self.height
            invariant
                self.wf(),
                y <= self.height,
                forall|x: u32, yy: u32, c: Cell| call_requires(render_cell, (x, yy, c)),
                forall|piece: spec_fn(u32, u32, Cell) -> Seq<char>| draws_with(render_cell, piece)
                    ==> buffer@ == start + grid_text(self.cells@, self.width, y as int, piece),
            decreases self.height - y,
        {
            let ghost row_start = buffer@;
            let mut x: u32 = 0;
            while x < self.width
                invariant
                    self.wf(),
                    x <= self.width,
                    y < self.height,
                    forall|xx: u32, yy: u32, c: Cell| call_requires(render_cell, (xx, yy, c)),
                    forall|piece: spec_fn(u32, u32, Cell) -> Seq<char>| draws_with(render_cell, piece)
                        ==> buffer@ == row_start + row_text(self.cells@, self.width, y, x as int, piece),
                decreases self.width - x,
            {
                proof {
                    self.lemma_index_in_range(x, y);
                }
                let n = self.cells.len();
                let row: usize = y as usize * self.width as usize;
                let cell = self.cells[x as usize + row];
                let text = render_cell(x, y, cell);
                buffer.push_str(text);
                x = x + 1;
            }
            buffer.push('\n');
            y = y + 1;
        }
    }

    /// The maze as text, each cell as `render_cell` draws it.
    pub fn render(&self, render_cell: impl Fn(u32, u32, Cell) -> &'static str) -> (s: String)
        requires
            self.wf(),
            forall|x: u32, y: u32, c: Cell| call_requires(render_cell, (x, y, c)),
        ensures
            forall|piece: spec_fn(u32, u32, Cell) -> Seq<char>| draws_with(render_cell, piece)
                ==> s@ == grid_text(self.cells@, self.width, self.height as int, piece),
    {
        let mut s = String::new();
        self.write_to(&mut s, render_cell);
        s
    }

    /// The maze as text, with `##` for solid cells and two spaces for empty ones.
    pub fn render_default(&self) -> (s: String)
        requires
            self.wf(),
        ensures
            s@ == grid_text(self.cells@, self.width, self.height as int, |x: u32, y: u32, c: Cell| default_art(c)),
    {
        let draw = |_x: u32, _y: u32, c: Cell| -> (r: &'static str)
            ensures
                r@ == default_art(c),
            {
                match c {
                    Cell::Empty => "  ",
                    Cell::Solid => "##",
                }
            };
        let s = self.render(draw);
        proof {
            let piece = |x: u32, y: u32, c: Cell| default_art(c);
            assert(draws_with(draw, piece));
        }
        s
    }

    /// `(x, y)` is a room: a cell of the grid at odd coordinates, where passages meet.
    pub open spec fn is_room(&self, x: int, y: int) -> bool {
        0 <= x < self.width && 0 <= y < self.height && x % 2 == 1 && y % 2 == 1
    }

    /// The cell at `(x, y)` is in the grid and solid.
    pub open spec fn solid_at(&self, x: int, y: int) -> bool {
        0 <= x < self.width && 0 <= y < self.height && self.cells@[x + y * self.width] == Cell::Solid
    }

    /// The cell at `(x, y)` is in the grid and empty.
    pub open spec fn empty_at(&self, x: int, y: int) -> bool {
        0 <= x < self.width && 0 <= y < self.height && self.cells@[x + y * self.width] == Cell::Empty
    }

    /// No cell two steps away from `(x, y)` in any of the four directions is solid.
    pub open spec fn rooms_around_open(&self, x: int, y: int) -> bool {
        &&& !self.solid_at(x - 2, y)
        &&& !self.solid_at(x + 2, y)
        &&& !self.solid_at(x, y - 2)
        &&& !self.solid_at(x, y + 2)
    }

    /// `(x, y)` lies between two rooms next to each other, in their row or in their column.
    pub open spec fn is_passage(&self, x: int, y: int) -> bool {
        ||| x % 2 == 0 && self.is_room(x - 1, y) && self.is_room(x + 1, y)
        ||| y % 2 == 0 && self.is_room(x, y - 1) && self.is_room(x, y + 1)
    }

    /// Carves a maze into the grid with a randomised depth-first search, starting from a
    /// maze cell drawn from `rng`: from the cell on top of the stack it moves two steps in a
    /// random direction to a solid cell, clearing that cell and the wall between them, and
    /// goes back when no direction leads to a solid cell. Cells are only ever cleared, and
    /// only rooms and the cells between two rooms next to each other; every cell it clears
    /// is reached from the first room through empty cells, and every room it clears has no
    /// solid room next to it when it is done. On a solid grid this carves a perfect maze: every
    /// room is cleared, every cleared wall joins two rooms, the cleared cells are connected, and
    /// there are one fewer cleared walls than rooms.
    #[verifier::rlimit(40)]
    #[verifier::spinoff_prover]
    pub fn generate(&mut self, rng: &mut WyRand)
        requires
            old(self).wf(),
            old(self).width <= 0x8000_0000,
            old(self).height <= 0x8000_0000,
            old(self).width / 2 > 0,
            old(self).height / 2 > 0,
        ensures
            final(self).wf(),
            final(self).width == old(self).width,
            final(self).height == old(self).height,
            forall|i: int|
                0 <= i < old(self).cells@.len() && old(self).cells@[i] == Cell::Empty
                    ==> final(self).cells@[i] == Cell::Empty,
            exists|x: int, y: int| final(self).is_room(x, y) && #[trigger] final(self).empty_at(x, y),
            forall|x: int, y: int|
                #[trigger] final(self).empty_at(x, y) && final(self).is_room(x, y) && !old(self).empty_at(x, y)
                    ==> final(self).rooms_around_open(x, y),
            (forall|i: int| 0 <= i < old(self).cells@.len() ==> old(self).cells@[i] == Cell::Solid) ==> forall|
                x: int,
                y: int,
            | final(self).is_room(x, y) ==> #[trigger] final(self).empty_at(x, y),
            forall|x: int, y: int|
                #[trigger] final(self).empty_at(x, y) && !old(self).empty_at(x, y) ==> final(self).is_room(x, y)
                    || final(self).is_passage(x, y),
            forall|x: int, y: int|
                #[trigger] final(self).empty_at(x, y) && (x % 2 == 0 && y % 2 == 0 || x == 0 || y == 0 || (x
                    == final(self).width - 1 && final(self).width % 2 == 1) || (y == final(self).height - 1
                    && final(self).height % 2 == 1)) ==> old(self).empty_at(x, y),
            (forall|i: int| 0 <= i < old(self).cells@.len() ==> old(self).cells@[i] == Cell::Solid) ==> {
                &&& perfect_maze(*final(self))
                &&& passages_join_empty_rooms(*final(self))
                &&& final(self).cells@.len() - solid_count(final(self).cells@) == 2 * ((final(self).width / 2) * (
                final(self).height / 2)) - 1
            },
            exists|sx: int, sy: int|
                #![trigger final(self).empty_at(sx, sy)]
                final(self).is_room(sx, sy) && final(self).empty_at(sx, sy) && forall|x: int, y: int|
                    #[trigger] final(self).empty_at(x, y) && !old(self).empty_at(x, y) ==> exists|n: nat|
                        connected(*final(self), sx, sy, x, y, n),
    {
        let init_x = Self::maze_cell(random_below(rng, self.maze_width()));
        let init_y = Self::maze_cell(random_below(rng, self.maze_height()));

        let mut stack: Vec<(u32, u32)> = Vec::new();
        stack.push((init_x, init_y));
        proof {
            self.lemma_index_in_range(init_x, init_y);
        }
        self.set((init_x, init_y), Cell::Empty);
        let ghost ix = init_x as int;
        let ghost iy = init_y as int;
        let ghost solid_start = forall|i: int| 0 <= i < old(self).cells@.len() ==> old(self).cells@[i] == Cell::Solid;
        let ghost mut visited: Set<(int, int)> = set![(ix, iy)];
        proof {
            assert(self.is_room(ix, iy));
            assert(self.empty_at(ix, iy));
            assert(stack@[0] == (init_x, init_y));
            assert(connected(*self, ix, iy, ix, iy, 0));
            assert forall|x: int, y: int|
                #[trigger] self.empty_at(x, y) && (!old(self).empty_at(x, y) || (x == ix && y == iy)) implies (x == ix
                    && y == iy) by {
                if !(x == ix && y == iy) {
                    old(self).lemma_index_in_range(x as u32, y as u32);
                    if x + y * self.width == ix + iy * self.width {
                        lemma_index_injective(self.width as int, x, y, ix, iy);
                    }
                }
            }
            assert forall|x: int, y: int|
                #[trigger] self.empty_at(x, y) && self.is_room(x, y) implies old(self).empty_at(x, y) || on_stack(
                    stack@,
                    x,
                    y,
                ) || self.rooms_around_open(x, y) by {
                if !(x == ix && y == iy) {
                    old(self).lemma_index_in_range(x as u32, y as u32);
                    if x + y * self.width == ix + iy * self.width {
                        lemma_index_injective(self.width as int, x, y, ix, iy);
                    }
                }
            }
            if solid_start {
                lemma_solid_count_all(old(self).cells@);
                old(self).lemma_index_in_range(init_x, init_y);
                lemma_solid_count_update(old(self).cells@, ix + iy * self.width, Cell::Empty);
                assert forall|x: int, y: int| !old(self).empty_at(x, y) by {
                    if 0 <= x < self.width && 0 <= y < self.height {
                        old(self).lemma_index_in_range(x as u32, y as u32);
                    }
                }
                assert forall|p: (int, int)| #[trigger] visited.contains(p) <==> self.is_room(p.0, p.1) && self.empty_at(
                    p.0,
                    p.1,
                ) by {
                    if self.empty_at(p.0, p.1) && !(p.0 == ix && p.1 == iy) {
                        assert(!old(self).empty_at(p.0, p.1));
                    }
                }
                assert forall|x: int, y: int| #[trigger] self.empty_at(x, y) && !self.is_room(x, y) implies false by {
                    assert(!old(self).empty_at(x, y));
                }
                assert(visited.len() == 1);
            }
        }

        while stack.len() != 0
            invariant
                self.wf(),
                self.width == old(self).width,
                self.height == old(self).height,
                self.width <= 0x8000_0000,
                self.height <= 0x8000_0000,
                old(self).cells@.len() == self.cells@.len(),
                forall|i: int| 0 <= i < stack@.len() ==> self.in_bounds(#[trigger] stack@[i].0, stack@[i].1),
                forall|i: int| 0 <= i < stack@.len() ==> (#[trigger] stack@[i]).0 % 2 == 1 && stack@[i].1 % 2 == 1,
                forall|i: int|
                    0 <= i < old(self).cells@.len() && old(self).cells@[i] == Cell::Empty
                        ==> self.cells@[i] == Cell::Empty,
                self.is_room(ix, iy),
                self.empty_at(ix, iy),
                forall|x: int, y: int|
                    #[trigger] self.empty_at(x, y) && self.is_room(x, y) ==> old(self).empty_at(x, y) || on_stack(
                        stack@,
                        x,
                        y,
                    ) || self.rooms_around_open(x, y),
                forall|i: int|
                    0 <= i < stack@.len() ==> self.empty_at((#[trigger] stack@[i]).0 as int, stack@[i].1 as int) && (
                    !old(self).empty_at(stack@[i].0 as int, stack@[i].1 as int) || (stack@[i].0 == ix && stack@[i].1
                        == iy)),
                forall|x: int, y: int|
                    #[trigger] self.empty_at(x, y) && !old(self).empty_at(x, y) ==> self.is_room(x, y)
                        || self.is_passage(x, y),
                forall|x: int, y: int|
                    #[trigger] self.empty_at(x, y) && (!old(self).empty_at(x, y) || (x == ix && y == iy))
                        ==> exists|n: nat| connected(*self, ix, iy, x, y, n),
                solid_start == forall|i: int| 0 <= i < old(self).cells@.len() ==> old(self).cells@[i] == Cell::Solid,
                solid_start ==> passages_join_empty_rooms(*self),
                solid_start ==> empty_rooms_are(*self, visited),
                solid_start ==> solid_count(self.cells@) + 2 * visited.len() == self.cells@.len() + 1,
            decreases 2 * solid_count(self.cells@) + stack@.len(),
        {
            let (cx, cy) = stack[stack.len() - 1];
            assert(self.in_bounds(stack@[stack@.len() - 1].0, stack@[stack@.len() - 1].1));
            assert(stack@[stack@.len() - 1].0 % 2 == 1 && stack@[stack@.len() - 1].1 % 2 == 1);
            let ghost before = *self;
            let ghost stack_before = stack@;

            let mut neighbors: [(i32, i32); 4] = [(-2, 0), (2, 0), (0, -2), (0, 2)];
            shuffle_offsets(&mut neighbors, rng);
            let mut neighbor: Option<(i32, i32)> = None;
            let mut i: usize = 0;
            while i < 4 && neighbor.is_none()
                invariant
                    self.wf(),
                    *self == before,
                    cx < self.width,
                    cy < self.height,
                    self.width <= 0x8000_0000,
                    self.height <= 0x8000_0000,
                    i <= 4,
                    neighbor matches Some(d) ==> self.cell_at(
                        wrapping_add_signed(cx, d.0),
                        wrapping_add_signed(cy, d.1),
                    ) == Some(Cell::Solid) && ((d.0 == 2 || d.0 == -2) && d.1 == 0 || d.0 == 0 && (d.1 == 2
                        || d.1 == -2)),
                    neighbor is None ==> forall|j: int|
                        0 <= j < i ==> !self.solid_at(cx + (#[trigger] neighbors@[j]).0, cy + neighbors@[j].1),
                    neighbors@.to_multiset() == seq![(-2i32, 0i32), (2i32, 0i32), (0i32, -2i32), (0i32, 2i32)].to_multiset(),
                decreases 4 - i,
            {
                let (dx, dy) = neighbors[i];
                proof {
                    broadcast use vstd::seq_lib::group_to_multiset_ensures;
                    assert(neighbors@.contains(neighbors@[i as int]));
                    assert(neighbors@.to_multiset().count(neighbors@[i as int]) > 0);
                    let m = seq![(-2i32, 0i32), (2i32, 0i32), (0i32, -2i32), (0i32, 2i32)];
                    assert(m.contains(neighbors@[i as int]));
                    lemma_step_cell(*self, cx, cy, dx, dy);
                }
                let c = self.get((wrapping_add_signed_exec(cx, dx), wrapping_add_signed_exec(cy, dy)));
                let open = match c {
                    Some(cell) => cell == Cell::Empty,
                    None => true,
                };
                if !open {
                    neighbor = Some((dx, dy));
                }
                i = i + 1;
            }

            match neighbor {
                None => {
                    proof {
                        broadcast use vstd::seq_lib::group_to_multiset_ensures;
                        let m = seq![(-2i32, 0i32), (2i32, 0i32), (0i32, -2i32), (0i32, 2i32)];
                        assert forall|k: int| 0 <= k < 4 implies !self.solid_at(cx + m[k].0, cy + m[k].1) by {
                            assert(m.contains(m[k]));
                            assert(m.to_multiset().count(m[k]) > 0);
                            assert(neighbors@.contains(m[k]));
                            let j = choose|j: int| 0 <= j < neighbors@.len() && neighbors@[j] == m[k];
                            assert(!self.solid_at(cx + neighbors@[j].0, cy + neighbors@[j].1));
                        }
                        assert(!self.solid_at(cx + m[0].0, cy + m[0].1));
                        assert(!self.solid_at(cx + m[1].0, cy + m[1].1));
                        assert(!self.solid_at(cx + m[2].0, cy + m[2].1));
                        assert(!self.solid_at(cx + m[3].0, cy + m[3].1));
                        assert(self.rooms_around_open(cx as int, cy as int));
                    }
                    stack.pop();
                    proof {
                        assert(stack@ == stack_before.drop_last());
                        assert forall|x: int, y: int|
                            #[trigger] self.empty_at(x, y) && self.is_room(x, y) implies old(self).empty_at(x, y)
                                || on_stack(stack@, x, y) || self.rooms_around_open(x, y) by {
                            if on_stack(stack_before, x, y) && !(x == cx && y == cy) {
                                let j = choose|j: int|
                                    0 <= j < stack_before.len() && stack_before[j].0 == x && stack_before[j].1 == y;
                                assert(j < stack_before.len() - 1);
                                assert(stack@[j] == stack_before[j]);
                            }
                        }
                        assert forall|i: int| 0 <= i < stack@.len() implies #[trigger] stack@[i] == stack_before[i] by {}
                    }
                },
                Some((dx, dy)) => {
                    let nx = saturating_add_signed_exec(cx, dx);
                    let ny = saturating_add_signed_exec(cy, dy);
                    assert(nx == wrapping_add_signed(cx, dx));
                    assert(ny == wrapping_add_signed(cy, dy));
                    proof {
                        lemma_step_cell(*self, cx, cy, dx, dy);
                        assert(nx == cx + dx && ny == cy + dy);
                    }
                    stack.push((nx, ny));
                    proof {
                        self.lemma_index_in_range(nx, ny);
                        lemma_solid_count_update(self.cells@, self.index_of(nx, ny), Cell::Empty);
                    }
                    self.set((nx, ny), Cell::Empty);
                    let mx = (nx + cx) / 2;
                    let my = (ny + cy) / 2;
                    proof {
                        if self.in_bounds(mx, my) {
                            self.lemma_index_in_range(mx, my);
                            lemma_solid_count_update(self.cells@, self.index_of(mx, my), Cell::Empty);
                        }
                    }
                    self.set((mx, my), Cell::Empty);
                    proof {
                        assert(before.in_bounds(mx, my));
                        assert(self.cells@ == before.cells@.update(nx + ny * before.width, Cell::Empty).update(
                            mx + my * before.width,
                            Cell::Empty,
                        ));
                        assert(!before.is_room(mx as int, my as int));
                        assert(stack@ == stack_before.push((nx, ny)));
                        assert forall|x: int, y: int|
                            #[trigger] self.empty_at(x, y) && self.is_room(x, y) implies old(self).empty_at(x, y)
                                || on_stack(stack@, x, y) || self.rooms_around_open(x, y) by {
                            lemma_cleared(before, *self, x - 2, y);
                            lemma_cleared(before, *self, x + 2, y);
                            lemma_cleared(before, *self, x, y - 2);
                            lemma_cleared(before, *self, x, y + 2);
                            if x == nx && y == ny {
                                assert(stack@[stack@.len() - 1] == (nx, ny));
                            } else {
                                lemma_changed_cell(before, *self, nx as int, ny as int, mx as int, my as int, x, y);
                                if on_stack(stack_before, x, y) {
                                    let j = choose|j: int|
                                        0 <= j < stack_before.len() && stack_before[j].0 == x && stack_before[j].1 == y;
                                    assert(stack@[j] == stack_before[j]);
                                }
                            }
                        }
                        lemma_cleared(before, *self, ix, iy);
                        if solid_start {
                            lemma_carve_step(
                                before,
                                *self,
                                cx as int,
                                cy as int,
                                nx as int,
                                ny as int,
                                mx as int,
                                my as int,
                                visited,
                            );
                            visited = visited.insert((nx as int, ny as int));
                        }
                        let top = stack_before.len() - 1;
                        assert(stack_before[top] == (cx, cy));
                        assert(before.empty_at(cx as int, cy as int));
                        let k = choose|k: nat| connected(before, ix, iy, cx as int, cy as int, k);
                        lemma_connected_cleared(before, *self, ix, iy, cx as int, cy as int, k);
                        lemma_cleared(before, *self, mx as int, my as int);
                        assert(self.empty_at(mx as int, my as int));
                        assert(self.empty_at(nx as int, ny as int));
                        assert(connected(*self, ix, iy, mx as int, my as int, k + 1));
                        assert(connected(*self, ix, iy, nx as int, ny as int, k + 2));
                        lemma_cleared(*old(self), before, nx as int, ny as int);
                        assert(!old(self).empty_at(nx as int, ny as int));
                        assert forall|i: int|
                            0 <= i < stack@.len() implies self.empty_at((#[trigger] stack@[i]).0 as int, stack@[i].1 as int)
                                && (!old(self).empty_at(stack@[i].0 as int, stack@[i].1 as int) || (stack@[i].0 == ix
                                && stack@[i].1 == iy)) by {
                            if i < stack_before.len() {
                                assert(stack@[i] == stack_before[i]);
                                lemma_cleared(before, *self, stack@[i].0 as int, stack@[i].1 as int);
                            }
                        }
                        assert forall|x: int, y: int|
                            #[trigger] self.empty_at(x, y) && !old(self).empty_at(x, y) implies self.is_room(x, y)
                                || self.is_passage(x, y) by {
                            if x == mx && y == my {
                                assert(self.is_passage(x, y));
                            } else if !(x == nx && y == ny) {
                                lemma_changed_cell(before, *self, nx as int, ny as int, mx as int, my as int, x, y);
                            }
                        }
                        assert forall|x: int, y: int|
                            #[trigger] self.empty_at(x, y) && (!old(self).empty_at(x, y) || (x == ix && y == iy))
                                implies exists|n: nat| connected(*self, ix, iy, x, y, n) by {
                            if x == mx && y == my {
                                assert(connected(*self, ix, iy, x, y, k + 1));
                            } else if x == nx && y == ny {
                                assert(connected(*self, ix, iy, x, y, k + 2));
                            } else {
                                lemma_changed_cell(before, *self, nx as int, ny as int, mx as int, my as int, x, y);
                                let j = choose|j: nat| connected(before, ix, iy, x, y, j);
                                lemma_connected_cleared(before, *self, ix, iy, x, y, j);
                            }
                        }
                    }
                },
            }
        }
        proof {
            assert forall|x: int, y: int|
                #[trigger] self.empty_at(x, y) && self.is_room(x, y) && !old(self).empty_at(x, y)
                    implies self.rooms_around_open(x, y) by {
                if on_stack(stack@, x, y) {
                    let j = choose|j: int| 0 <= j < stack@.len() && stack@[j].0 == x && stack@[j].1 == y;
                }
            }
            assert(self.empty_at(ix, iy) && self.is_room(ix, iy));
            if forall|i: int| 0 <= i < old(self).cells@.len() ==> old(self).cells@[i] == Cell::Solid {
                assert forall|x: int, y: int| #[trigger] self.empty_at(x, y) && self.is_room(x, y)
                    implies self.rooms_around_open(x, y) by {
                    if old(self).empty_at(x, y) {
                        old(self).lemma_index_in_range(x as u32, y as u32);
                    }
                }
                assert forall|x: int, y: int| self.is_room(x, y) implies #[trigger] self.empty_at(x, y) by {
                    lemma_rooms_reached(*self, ix, iy, x, y);
                }
                lemma_rooms_len(*self);
                assert(visited =~= rooms(*self));
                lemma_solid_grid_has_no_empty(*old(self));
                assert forall|x: int, y: int| #[trigger] self.empty_at(x, y) implies exists|n: nat|
                    connected(*self, ix, iy, x, y, n) by {
                    assert(!old(self).empty_at(x, y));
                }
                assert forall|x: int, y: int| #[trigger] self.empty_at(x, y) implies self.is_room(x, y)
                    || self.is_passage(x, y) by {
                    assert(!old(self).empty_at(x, y));
                }
            }
        }
    }
}

/// `(x, y)` is reached from `(x0, y0)` in `n` steps between empty cells next to each other.
pub open spec fn connected(m: Maze, x0: int, y0: int, x: int, y: int, n: nat) -> bool
    decreases n,
{
    if n == 0 {
        x == x0 && y == y0 && m.empty_at(x, y)
    } else {
        m.empty_at(x, y) && (connected(m, x0, y0, x - 1, y, (n - 1) as nat) || connected(
            m,
            x0,
            y0,
            x + 1,
            y,
            (n - 1) as nat,
        ) || connected(m, x0, y0, x, y - 1, (n - 1) as nat) || connected(m, x0, y0, x, y + 1, (n - 1) as nat))
    }
}

/// Clearing cells keeps every way between empty cells open.
proof fn lemma_connected_cleared(a: Maze, b: Maze, x0: int, y0: int, x: int, y: int, n: nat)
    requires
        a.wf(),
        b.wf(),
        a.width == b.width,
        a.height == b.height,
        forall|i: int| 0 <= i < a.cells@.len() && a.cells@[i] == Cell::Empty ==> b.cells@[i] == Cell::Empty,
        connected(a, x0, y0, x, y, n),
    ensures
        connected(b, x0, y0, x, y, n),
    decreases n,
{
    lemma_cleared(a, b, x, y);
    if n > 0 {
        if connected(a, x0, y0, x - 1, y, (n - 1) as nat) {
            lemma_connected_cleared(a, b, x0, y0, x - 1, y, (n - 1) as nat);
        } else if connected(a, x0, y0, x + 1, y, (n - 1) as nat) {
            lemma_connected_cleared(a, b, x0, y0, x + 1, y, (n - 1) as nat);
        } else if connected(a, x0, y0, x, y - 1, (n - 1) as nat) {
            lemma_connected_cleared(a, b, x0, y0, x, y - 1, (n - 1) as nat);
        } else {
            lemma_connected_cleared(a, b, x0, y0, x, y + 1, (n - 1) as nat);
        }
    }
}

/// The rooms of `m` that lie in its first `k` rows of rooms.
pub open spec fn rooms_below(m: Maze, k: int) -> Set<(int, int)> {
    Set::new(|p: (int, int)| m.is_room(p.0, p.1) && p.1 < 2 * k)
}

/// The rooms of `m` in row `k` of rooms.
pub open spec fn room_row(m: Maze, k: int) -> Set<(int, int)> {
    Set::new(|p: (int, int)| m.is_room(p.0, p.1) && p.1 == 2 * k + 1)
}

/// The rooms of `m`.
pub open spec fn rooms(m: Maze) -> Set<(int, int)> {
    Set::new(|p: (int, int)| m.is_room(p.0, p.1))
}

proof fn lemma_room_row_len(m: Maze, k: int)
    requires
        0 <= k,
        2 * k + 1 < m.height,
    ensures
        room_row(m, k).finite(),
        room_row(m, k).len() == m.width / 2,
{
    let f = |i: int| (2 * i + 1, 2 * k + 1);
    let r = set_int_range(0, (m.width / 2) as int);
    lemma_int_range(0, (m.width / 2) as int);
    assert forall|p: (int, int)| room_row(m, k).contains(p) implies r.map(f).contains(p) by {
        let i = (p.0 - 1) / 2;
        assert(r.contains(i));
        assert(f(i) == p);
    }
    assert forall|p: (int, int)| r.map(f).contains(p) implies room_row(m, k).contains(p) by {
        let i = choose|i: int| r.contains(i) && f(i) == p;
    }
    assert(r.map(f) =~= room_row(m, k));
    assert(injective_on(f, r));
    lemma_map_size(r, room_row(m, k), f);
}

proof fn lemma_rooms_below_len(m: Maze, k: int)
    requires
        0 <= k <= m.height / 2,
    ensures
        rooms_below(m, k).finite(),
        rooms_below(m, k).len() == k * (m.width / 2),
    decreases k,
{
    if k == 0 {
        assert(rooms_below(m, 0) =~= Set::empty());
    } else {
        lemma_rooms_below_len(m, k - 1);
        lemma_room_row_len(m, k - 1);
        assert(rooms_below(m, k) =~= rooms_below(m, k - 1) + room_row(m, k - 1));
        assert(rooms_below(m, k - 1).disjoint(room_row(m, k - 1)));
        lemma_set_disjoint_lens(rooms_below(m, k - 1), room_row(m, k - 1));
        assert(k * (m.width / 2) == (k - 1) * (m.width / 2) + m.width / 2) by (nonlinear_arith);
    }
}

/// A grid has as many rooms as rooms fit across times rooms fit down.
proof fn lemma_rooms_len(m: Maze)
    ensures
        rooms(m).finite(),
        rooms(m).len() == (m.width / 2) * (m.height / 2),
{
    lemma_rooms_below_len(m, (m.height / 2) as int);
    assert(rooms(m) =~= rooms_below(m, (m.height / 2) as int));
    assert((m.height / 2) * (m.width / 2) == (m.width / 2) * (m.height / 2)) by (nonlinear_arith);
}

/// Every empty cell that is not a room lies between two empty rooms.
pub open spec fn passages_join_empty_rooms(m: Maze) -> bool {
    forall|x: int, y: int|
        #[trigger] m.empty_at(x, y) && !m.is_room(x, y) ==> (x % 2 == 0 && m.empty_at(x - 1, y) && m.empty_at(
            x + 1,
            y,
        )) || (y % 2 == 0 && m.empty_at(x, y - 1) && m.empty_at(x, y + 1))
}

/// `m` is a perfect maze: every room is cleared, nothing but rooms and the walls between two
/// rooms is cleared, every cleared wall joins two cleared rooms, every cleared cell is reached
/// from one room through cleared cells, and there is one cleared wall fewer than rooms.
pub open spec fn perfect_maze(m: Maze) -> bool {
    &&& forall|x: int, y: int| m.is_room(x, y) ==> #[trigger] m.empty_at(x, y)
    &&& forall|x: int, y: int| #[trigger] m.empty_at(x, y) ==> m.is_room(x, y) || m.is_passage(x, y)
    &&& passages_join_empty_rooms(m)
    &&& m.cells@.len() - solid_count(m.cells@) == 2 * ((m.width / 2) * (m.height / 2)) - 1
    &&& exists|sx: int, sy: int|
        #![trigger m.empty_at(sx, sy)]
        m.is_room(sx, sy) && m.empty_at(sx, sy) && forall|x: int, y: int|
            #[trigger] m.empty_at(x, y) ==> exists|n: nat| connected(m, sx, sy, x, y, n)
}

/// A grid of solid cells has no empty cell.
pub proof fn lemma_solid_grid_has_no_empty(m: Maze)
    requires
        m.wf(),
        forall|i: int| 0 <= i < m.cells@.len() ==> m.cells@[i] == Cell::Solid,
    ensures
        forall|x: int, y: int| !#[trigger] m.empty_at(x, y),
{
    assert forall|x: int, y: int| !#[trigger] m.empty_at(x, y) by {
        if 0 <= x < m.width && 0 <= y < m.height {
            let w = m.width as int;
            let h = m.height as int;
            assert(0 <= x + y * w < w * h) by (nonlinear_arith)
                requires
                    0 <= x < w,
                    0 <= y < h,
            ;
        }
    }
}

/// `v` is the set of the empty rooms of `m`.
pub open spec fn empty_rooms_are(m: Maze, v: Set<(int, int)>) -> bool {
    &&& v.finite()
    &&& forall|p: (int, int)| #[trigger] v.contains(p) <==> m.is_room(p.0, p.1) && m.empty_at(p.0, p.1)
}

/// Every cell of an all-solid grid is counted solid.
proof fn lemma_solid_count_all(cells: Seq<Cell>)
    requires
        forall|i: int| 0 <= i < cells.len() ==> cells[i] == Cell::Solid,
    ensures
        solid_count(cells) == cells.len(),
    decreases cells.len(),
{
    if cells.len() > 0 {
        lemma_solid_count_all(cells.drop_last());
    }
}

/// Carving from room `(cx, cy)` into the solid room `(nx, ny)` next to it clears exactly two
/// solid cells, that room and the one between: the passages still join empty rooms, and the
/// room joins the empty ones.
proof fn lemma_carve_step(
    before: Maze,
    after: Maze,
    cx: int,
    cy: int,
    nx: int,
    ny: int,
    mx: int,
    my: int,
    v: Set<(int, int)>,
)
    requires
        before.wf(),
        after.wf(),
        before.width == after.width,
        before.height == after.height,
        before.is_room(cx, cy),
        before.empty_at(cx, cy),
        before.is_room(nx, ny),
        before.solid_at(nx, ny),
        (nx == cx && (ny == cy + 2 || ny == cy - 2)) || (ny == cy && (nx == cx + 2 || nx == cx - 2)),
        2 * mx == cx + nx,
        2 * my == cy + ny,
        after.cells@ == before.cells@.update(nx + ny * before.width, Cell::Empty).update(
            mx + my * before.width,
            Cell::Empty,
        ),
        passages_join_empty_rooms(before),
        empty_rooms_are(before, v),
    ensures
        passages_join_empty_rooms(after),
        empty_rooms_are(after, v.insert((nx, ny))),
        !v.contains((nx, ny)),
        solid_count(after.cells@) + 2 == solid_count(before.cells@),
{
    let w = before.width as int;
    before.lemma_index_in_range(nx as u32, ny as u32);
    before.lemma_index_in_range(mx as u32, my as u32);
    before.lemma_index_in_range(cx as u32, cy as u32);
    assert(!before.empty_at(mx, my)) by {
        if before.empty_at(mx, my) {
            assert(!before.is_room(mx, my));
        }
    }
    assert(before.solid_at(mx, my));
    if mx + my * w == nx + ny * w {
        lemma_index_injective(w, mx, my, nx, ny);
    }
    let mid = before.cells@.update(nx + ny * w, Cell::Empty);
    lemma_solid_count_update(before.cells@, nx + ny * w, Cell::Empty);
    lemma_solid_count_update(mid, mx + my * w, Cell::Empty);
    assert(after.empty_at(nx, ny));
    assert(after.empty_at(mx, my));
    assert(after.empty_at(cx, cy)) by {
        if cx + cy * w == mx + my * w {
            lemma_index_injective(w, cx, cy, mx, my);
        }
    }
    assert forall|x: int, y: int|
        #[trigger] after.empty_at(x, y) && !after.is_room(x, y) implies (x % 2 == 0 && after.empty_at(x - 1, y)
            && after.empty_at(x + 1, y)) || (y % 2 == 0 && after.empty_at(x, y - 1) && after.empty_at(x, y + 1)) by {
        if !(x == mx && y == my) {
            assert(!(x == nx && y == ny));
            lemma_changed_cell(before, after, nx, ny, mx, my, x, y);
            lemma_cleared_step(before, after, nx, ny, mx, my, x - 1, y);
            lemma_cleared_step(before, after, nx, ny, mx, my, x + 1, y);
            lemma_cleared_step(before, after, nx, ny, mx, my, x, y - 1);
            lemma_cleared_step(before, after, nx, ny, mx, my, x, y + 1);
        }
    }
    assert forall|p: (int, int)| #[trigger] v.insert((nx, ny)).contains(p) <==> after.is_room(p.0, p.1)
        && after.empty_at(p.0, p.1) by {
        if !(p.0 == nx && p.1 == ny) && !(p.0 == mx && p.1 == my) && after.is_room(p.0, p.1) {
            lemma_changed_cell(before, after, nx, ny, mx, my, p.0, p.1);
        }
    }
}

/// Clearing two cells keeps every empty cell empty.
proof fn lemma_cleared_step(a: Maze, b: Maze, nx: int, ny: int, mx: int, my: int, x: int, y: int)
    requires
        a.wf(),
        b.wf(),
        a.width == b.width,
        a.height == b.height,
        0 <= nx < a.width,
        0 <= ny < a.height,
        0 <= mx < a.width,
        0 <= my < a.height,
        b.cells@ == a.cells@.update(nx + ny * a.width, Cell::Empty).update(mx + my * a.width, Cell::Empty),
    ensures
        a.empty_at(x, y) ==> b.empty_at(x, y),
{
    if a.empty_at(x, y) {
        if (x == nx && y == ny) || (x == mx && y == my) {
            a.lemma_index_in_range(nx as u32, ny as u32);
            a.lemma_index_in_range(mx as u32, my as u32);
        } else {
            lemma_changed_cell(a, b, nx, ny, mx, my, x, y);
        }
    }
}

/// The stack holds `(x, y)`.
pub open spec fn on_stack(stack: Seq<(u32, u32)>, x: int, y: int) -> bool {
    exists|j: int| 0 <= j < stack.len() && stack[j].0 == x && stack[j].1 == y
}

/// A step of two cells from `(cx, cy)` leads to the cell two cells away when it lies in the
/// grid, and outside the grid otherwise.
proof fn lemma_step_cell(m: Maze, cx: u32, cy: u32, dx: i32, dy: i32)
    requires
        m.wf(),
        cx < m.width <= 0x8000_0000,
        cy < m.height <= 0x8000_0000,
        (dx == 2 || dx == -2) && dy == 0 || dx == 0 && (dy == 2 || dy == -2),
    ensures
        (m.cell_at(wrapping_add_signed(cx, dx), wrapping_add_signed(cy, dy)) == Some(Cell::Solid))
            == m.solid_at(cx + dx, cy + dy),
        m.cell_at(wrapping_add_signed(cx, dx), wrapping_add_signed(cy, dy)) == Some(Cell::Solid) ==> (
        wrapping_add_signed(cx, dx) == cx + dx && wrapping_add_signed(cy, dy) == cy + dy),
{
}

/// Clearing cells keeps empty cells empty, and makes no cell solid.
proof fn lemma_cleared(a: Maze, b: Maze, x: int, y: int)
    requires
        a.wf(),
        b.wf(),
        a.width == b.width,
        a.height == b.height,
        forall|i: int| 0 <= i < a.cells@.len() && a.cells@[i] == Cell::Empty ==> b.cells@[i] == Cell::Empty,
    ensures
        b.solid_at(x, y) ==> a.solid_at(x, y),
        a.empty_at(x, y) ==> b.empty_at(x, y),
{
    if 0 <= x < a.width && 0 <= y < a.height {
        a.lemma_index_in_range(x as u32, y as u32);
    }
}

/// Two cells of a row-by-row grid are stored at the same place only if they are the same cell.
proof fn lemma_index_injective(w: int, x1: int, y1: int, x2: int, y2: int)
    requires
        0 <= x1 < w,
        0 <= x2 < w,
        0 <= y1,
        0 <= y2,
        x1 + y1 * w == x2 + y2 * w,
    ensures
        x1 == x2,
        y1 == y2,
{
    if y1 < y2 {
        assert(y2 * w - y1 * w == (y2 - y1) * w) by (nonlinear_arith);
        assert((y2 - y1) * w >= w) by (nonlinear_arith)
            requires
                y2 - y1 >= 1,
                w >= 0,
        ;
    } else if y2 < y1 {
        assert(y1 * w - y2 * w == (y1 - y2) * w) by (nonlinear_arith);
        assert((y1 - y2) * w >= w) by (nonlinear_arith)
            requires
                y1 - y2 >= 1,
                w >= 0,
        ;
    }
}

/// After the room `(nx, ny)` and the cell `(mx, my)` are cleared, every other cell is as it was.
proof fn lemma_changed_cell(a: Maze, b: Maze, nx: int, ny: int, mx: int, my: int, x: int, y: int)
    requires
        a.wf(),
        b.wf(),
        a.width == b.width,
        a.height == b.height,
        0 <= nx < a.width,
        0 <= ny < a.height,
        0 <= mx < a.width,
        0 <= my < a.height,
        b.cells@ == a.cells@.update(nx + ny * a.width, Cell::Empty).update(mx + my * a.width, Cell::Empty),
        !(x == nx && y == ny),
        !(x == mx && y == my),
        0 <= x < a.width,
        0 <= y < a.height,
    ensures
        b.empty_at(x, y) == a.empty_at(x, y),
{
    a.lemma_index_in_range(x as u32, y as u32);
    a.lemma_index_in_range(nx as u32, ny as u32);
    a.lemma_index_in_range(mx as u32, my as u32);
    if x + y * a.width == nx + ny * a.width {
        lemma_index_injective(a.width as int, x, y, nx, ny);
    }
    if x + y * a.width == mx + my * a.width {
        lemma_index_injective(a.width as int, x, y, mx, my);
    }
}

/// When every empty room has no solid room next to it, every room of the row of an empty
/// room is empty.
proof fn lemma_row_reached(m: Maze, x0: int, y0: int, x: int)
    requires
        m.wf(),
        m.is_room(x0, y0),
        m.empty_at(x0, y0),
        m.is_room(x, y0),
        forall|a: int, b: int| #[trigger] m.empty_at(a, b) && m.is_room(a, b) ==> m.rooms_around_open(a, b),
    ensures
        m.empty_at(x, y0),
    decreases if x > x0 { x - x0 } else { x0 - x },
{
    if x > x0 {
        lemma_row_reached(m, x0, y0, x - 2);
        assert(m.rooms_around_open(x - 2, y0));
        m.lemma_index_in_range(x as u32, y0 as u32);
    } else if x < x0 {
        lemma_row_reached(m, x0, y0, x + 2);
        assert(m.rooms_around_open(x + 2, y0));
        m.lemma_index_in_range(x as u32, y0 as u32);
    }
}

/// When every empty room has no solid room next to it, one empty room makes every room empty.
proof fn lemma_rooms_reached(m: Maze, x0: int, y0: int, x: int, y: int)
    requires
        m.wf(),
        m.is_room(x0, y0),
        m.empty_at(x0, y0),
        m.is_room(x, y),
        forall|a: int, b: int| #[trigger] m.empty_at(a, b) && m.is_room(a, b) ==> m.rooms_around_open(a, b),
    ensures
        m.empty_at(x, y),
    decreases if y > y0 { y - y0 } else { y0 - y },
{
    if y > y0 {
        lemma_rooms_reached(m, x0, y0, x, y - 2);
        assert(m.rooms_around_open(x, y - 2));
        m.lemma_index_in_range(x as u32, y as u32);
    } else if y < y0 {
        lemma_rooms_reached(m, x0, y0, x, y + 2);
        assert(m.rooms_around_open(x, y + 2));
        m.lemma_index_in_range(x as u32, y as u32);
    } else {
        lemma_row_reached(m, x0, y0, x);
    }
}

} // verus!
