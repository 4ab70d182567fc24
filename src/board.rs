use vstd::prelude::*;

use crate::animation::AnimationStep;
use crate::grid_math::{grid_sum, lemma_update, occupied};

verus! {

/// Side length of the square grid.
pub const SIZE: usize = 4;

/// Number of cells of the grid.
pub const CELLS: usize = 16;

/// Direction in which a move slides the tiles.
#[derive(Clone, Copy, Debug, PartialEq, Eq, Structural)]
pub enum Direction {
    Up,
    Right,
    Down,
    Left,
}

/// A square grid of tiles; `0` is an empty cell. Cells are stored row by row.
pub struct Board {
    pieces: Vec<u16>,
}

impl View for Board {
    type V = Seq<u16>;

    closed spec fn view(&self) -> Seq<u16> {
        self.pieces@
    }
}

pub open spec fn in_bounds(x: int, y: int) -> bool {
    0 <= x < SIZE && 0 <= y < SIZE
}

/// Position of cell `(x, y)` in the row-major sequence of cells.
pub open spec fn cell_index(x: int, y: int) -> int {
    y * 4 + x
}

pub open spec fn tile(g: Seq<u16>, x: int, y: int) -> u16 {
    g[cell_index(x, y)]
}

/// The step from a cell to its neighbour in direction `d`.
pub open spec fn delta(d: Direction) -> (int, int) {
    match d {
        Direction::Up => (0, -1),
        Direction::Right => (1, 0),
        Direction::Down => (0, 1),
        Direction::Left => (-1, 0),
    }
}

/// Number of cells between `(x, y)` and the wall that direction `d` moves toward.
pub open spec fn room(d: Direction, x: int, y: int) -> int {
    match d {
        Direction::Up => y,
        Direction::Right => 3 - x,
        Direction::Down => 3 - y,
        Direction::Left => x,
    }
}

/// Where a tile of value `v` that stands at `(x, y)` comes to rest when it
/// walks in direction `d` over empty cells: the furthest cell reached, and
/// whether it stopped by meeting a tile of its own value there. A tile that a
/// merge produced earlier in the move (marked in `m`) blocks the walk like an
/// unequal tile.
pub open spec fn walk(g: Seq<u16>, m: Seq<bool>, d: Direction, v: u16, x: int, y: int) -> (
    int,
    int,
    bool,
)
    decreases room(d, x, y),
{
    let nx = x + delta(d).0;
    let ny = y + delta(d).1;
    if !in_bounds(nx, ny) {
        (x, y, false)
    } else if tile(g, nx, ny) == 0 {
        walk(g, m, d, v, nx, ny)
    } else if tile(g, nx, ny) == v && !m[cell_index(nx, ny)] {
        (nx, ny, true)
    } else {
        (x, y, false)
    }
}

/// Resolving the tile at `(x, y)` doubles no value past `u16::MAX`.
pub open spec fn doubling_fits(g: Seq<u16>, m: Seq<bool>, d: Direction, x: int, y: int) -> bool {
    let v = tile(g, x, y);
    (v != 0 && walk(g, m, d, v, x, y).2) ==> 2 * v <= u16::MAX
}

/// What resolving the tile at `(x, y)` does: the new grid, the new marks of
/// merged cells, and the step that records it, if the tile moved or merged.
pub open spec fn resolve(g: Seq<u16>, m: Seq<bool>, d: Direction, x: int, y: int) -> (
    Seq<u16>,
    Seq<bool>,
    Option<AnimationStep>,
) {
    let v = tile(g, x, y);
    let w = walk(g, m, d, v, x, y);
    if v == 0 || (!w.2 && w.0 == x && w.1 == y) {
        (g, m, None)
    } else {
        let nv: u16 = if w.2 {
            (2 * v) as u16
        } else {
            v
        };
        (
            g.update(cell_index(w.0, w.1), nv).update(cell_index(x, y), 0),
            if w.2 {
                m.update(cell_index(w.0, w.1), true)
            } else {
                m
            },
            Some(
                AnimationStep {
                    from_x: x as usize,
                    from_y: y as usize,
                    to_x: w.0 as usize,
                    to_y: w.1 as usize,
                    is_merge: w.2,
                },
            ),
        )
    }
}

/// The `k`-th cell that a move in direction `d` resolves. Down scans rows from
/// the bottom, the others from the top; Right scans each row from the right,
/// the others from the left.
pub open spec fn scan_cell(d: Direction, k: int) -> (int, int) {
    let row = k / 4;
    let col = k % 4;
    match d {
        Direction::Down => (col, 3 - row),
        Direction::Right => (3 - col, row),
        _ => (col, row),
    }
}

/// No cell is marked as produced by a merge.
pub open spec fn no_marks() -> Seq<bool> {
    Seq::new(CELLS as nat, |i: int| false)
}

/// The grid, the steps and the marks of merged cells after the first `k`
/// cells of the scan are resolved.
pub open spec fn run(g: Seq<u16>, d: Direction, k: nat) -> (Seq<u16>, Seq<AnimationStep>, Seq<
    bool,
>)
    decreases k,
{
    if k == 0 {
        (g, Seq::empty(), no_marks())
    } else {
        let prev = run(g, d, (k - 1) as nat);
        let c = scan_cell(d, k - 1);
        let r = resolve(prev.0, prev.2, d, c.0, c.1);
        (
            r.0,
            match r.2 {
                Some(s) => prev.1.push(s),
                None => prev.1,
            },
            r.1,
        )
    }
}

/// No doubling among the first `k` resolutions of the scan passes `u16::MAX`.
pub open spec fn fits_upto(g: Seq<u16>, d: Direction, k: nat) -> bool
    decreases k,
{
    if k == 0 {
        true
    } else {
        let prev = run(g, d, (k - 1) as nat);
        let c = scan_cell(d, k - 1);
        fits_upto(g, d, (k - 1) as nat) && doubling_fits(prev.0, prev.2, d, c.0, c.1)
    }
}

/// A move in direction `d` doubles no value past `u16::MAX`.
pub open spec fn no_overflow(g: Seq<u16>, d: Direction) -> bool {
    fits_upto(g, d, CELLS as nat)
}

/// The grid and the ordered steps that a whole move in direction `d` yields.
pub open spec fn moved(g: Seq<u16>, d: Direction) -> (Seq<u16>, Seq<AnimationStep>) {
    let r = run(g, d, CELLS as nat);
    (r.0, r.1)
}

/// Chance, in percent, that a spawned tile is a 2 rather than a 4.
pub const SPAWN_TWO_PERCENT: u64 = 75;

/// The value of a spawned tile for a roll in percent (`0..100`).
pub open spec fn spawn_value(roll: u64) -> u16 {
    if roll < SPAWN_TWO_PERCENT {
        2
    } else {
        4
    }
}

/// The empty cells among the first `n` cells, as `(x, y)`, row by row.
pub open spec fn empties_upto(g: Seq<u16>, n: int) -> Seq<(usize, usize)>
    decreases n,
{
    if n <= 0 {
        Seq::empty()
    } else {
        let prev = empties_upto(g, n - 1);
        if g[n - 1] == 0 {
            prev.push((((n - 1) % 4) as usize, ((n - 1) / 4) as usize))
        } else {
            prev
        }
    }
}

/// The empty cells of a grid, row by row.
pub open spec fn empty_cells_of(g: Seq<u16>) -> Seq<(usize, usize)> {
    empties_upto(g, CELLS as int)
}

/// The grid after a spawn, and the placement `[x, y, value]` that it reports
/// (empty when the grid is full). `pick` chooses among the empty cells.
pub open spec fn spawned(g: Seq<u16>, pick: usize, roll: u64) -> (Seq<u16>, Seq<usize>) {
    let e = empty_cells_of(g);
    if e.len() == 0 {
        (g, Seq::empty())
    } else {
        let c = e[pick as int % e.len() as int];
        let v = spawn_value(roll);
        (g.update(cell_index(c.0 as int, c.1 as int), v), seq![c.0, c.1, v as usize])
    }
}

/// Each listed empty cell is on the grid, among the first `n`, and empty; the
/// list is empty only when those cells are all occupied.
pub proof fn lemma_empties(g: Seq<u16>, n: int)
    requires
        0 <= n <= g.len(),
        g.len() == CELLS,
    ensures
        forall|j: int|
            0 <= j < empties_upto(g, n).len() ==> {
                let c = #[trigger] empties_upto(g, n)[j];
                &&& in_bounds(c.0 as int, c.1 as int)
                &&& cell_index(c.0 as int, c.1 as int) < n
                &&& tile(g, c.0 as int, c.1 as int) == 0
            },
        empties_upto(g, n).len() == 0 <==> (forall|i: int| 0 <= i < n ==> g[i] != 0),
    decreases n,
{
    if n > 0 {
        lemma_empties(g, n - 1);
        let prev = empties_upto(g, n - 1);
        if g[n - 1] == 0 {
            let c = (((n - 1) % 4) as usize, ((n - 1) / 4) as usize);
            assert(cell_index(c.0 as int, c.1 as int) == n - 1);
            assert(empties_upto(g, n)[prev.len() as int] == c);
        }
    }
}

/// Facts on where a walk ends.
pub proof fn lemma_walk(g: Seq<u16>, m: Seq<bool>, d: Direction, v: u16, x: int, y: int)
    requires
        in_bounds(x, y),
        g.len() == CELLS,
    ensures
        ({
            let w = walk(g, m, d, v, x, y);
            &&& in_bounds(w.0, w.1)
            &&& room(d, w.0, w.1) <= room(d, x, y)
            &&& (w.0 == x && w.1 == y) <==> room(d, w.0, w.1) == room(d, x, y)
            &&& delta(d).0 == 0 ==> w.0 == x
            &&& delta(d).1 == 0 ==> w.1 == y
            &&& w.2 ==> tile(g, w.0, w.1) == v && room(d, w.0, w.1) < room(d, x, y) && !m[cell_index(
                w.0,
                w.1,
            )]
            &&& (!w.2 && room(d, w.0, w.1) < room(d, x, y)) ==> tile(g, w.0, w.1) == 0
        }),
    decreases room(d, x, y),
{
    let nx = x + delta(d).0;
    let ny = y + delta(d).1;
    if in_bounds(nx, ny) && tile(g, nx, ny) == 0 {
        lemma_walk(g, m, d, v, nx, ny);
    }
}

/// A resolution keeps the grid's values as a whole when it does not merge;
/// when its doubling fits, it keeps the sum of the grid and empties one more
/// cell exactly when it merges.
pub proof fn lemma_resolve_conserves(g: Seq<u16>, m: Seq<bool>, d: Direction, x: int, y: int)
    requires
        g.len() == CELLS,
        m.len() == CELLS,
        in_bounds(x, y),
    ensures
        ({
            let r = resolve(g, m, d, x, y);
            let merged = r.2 is Some && r.2->0.is_merge;
            &&& r.0.len() == CELLS
            &&& r.1.len() == CELLS
            &&& doubling_fits(g, m, d, x, y) ==> grid_sum(r.0) == grid_sum(g)
            &&& doubling_fits(g, m, d, x, y) ==> occupied(r.0) == occupied(g) - if merged {
                1int
            } else {
                0int
            }
            &&& !merged ==> r.0.to_multiset() == g.to_multiset()
        }),
{
    let v = tile(g, x, y);
    let w = walk(g, m, d, v, x, y);
    lemma_walk(g, m, d, v, x, y);
    if v != 0 && !(!w.2 && w.0 == x && w.1 == y) {
        let i = cell_index(w.0, w.1);
        let o = cell_index(x, y);
        assert(i != o);
        let nv: u16 = if w.2 {
            (2 * v) as u16
        } else {
            v
        };
        let g1 = g.update(i, nv);
        lemma_update(g, i, nv);
        lemma_update(g1, o, 0);
        if !w.2 {
            vstd::seq_lib::to_multiset_update(g, i, nv);
            vstd::seq_lib::to_multiset_update(g1, o, 0);
            g.to_multiset_ensures();
            g1.to_multiset_ensures();
            assert(g.contains(g[i]));
            assert(g1.contains(g1[o]));
            assert(g1.to_multiset() == g.to_multiset().insert(v).remove(0u16));
            assert(g1.update(o, 0).to_multiset() == g1.to_multiset().insert(0u16).remove(v));
            assert(g1.update(o, 0).to_multiset() =~= g.to_multiset());
        }
    }
}

/// Fitting doublings over the first `n` resolutions fit over fewer.
pub proof fn lemma_fits_prefix(g: Seq<u16>, d: Direction, k: nat, n: nat)
    requires
        k <= n,
        fits_upto(g, d, n),
    ensures
        fits_upto(g, d, k),
    decreases n,
{
    if k < n {
        lemma_fits_prefix(g, d, k, (n - 1) as nat);
    }
}

/// The cell next to `(x, y)` in direction `d`, if it lies on the grid.
fn neighbor(d: Direction, x: usize, y: usize) -> (r: Option<(usize, usize)>)
    requires
        in_bounds(x as int, y as int),
    ensures
        match r {
            Some(n) => in_bounds(n.0 as int, n.1 as int) && n.0 == x + delta(d).0 && n.1 == y
                + delta(d).1,
            None => !in_bounds(x + delta(d).0, y + delta(d).1),
        },
{
    match d {
        Direction::Up => if y > 0 {
            Some((x, y - 1))
        } else {
            None
        },
        Direction::Right => if x + 1 < SIZE {
            Some((x + 1, y))
        } else {
            None
        },
        Direction::Down => if y + 1 < SIZE {
            Some((x, y + 1))
        } else {
            None
        },
        Direction::Left => if x > 0 {
            Some((x - 1, y))
        } else {
            None
        },
    }
}

/// The `k`-th cell of the scan order of direction `d`.
fn scan_position(d: Direction, k: usize) -> (r: (usize, usize))
    requires
        k < CELLS,
    ensures
        r.0 as int == scan_cell(d, k as int).0,
        r.1 as int == scan_cell(d, k as int).1,
        in_bounds(r.0 as int, r.1 as int),
{
    let row = k / SIZE;
    let col = k % SIZE;
    match d {
        Direction::Down => (col, SIZE - 1 - row),
        Direction::Right => (SIZE - 1 - col, row),
        _ => (col, row),
    }
}

impl Board {
    /// A board holds exactly one value per cell.
    pub open spec fn wf(&self) -> bool {
        self@.len() == CELLS
    }

    /// An empty board.
    pub fn new() -> (r: Self)
        ensures
            r.wf(),
            forall|i: int| 0 <= i < CELLS ==> #[trigger] r@[i] == 0,
    {
        let mut pieces: Vec<u16> = Vec::new();
        let mut i: usize = 0;
        while i < CELLS
            invariant
                i <= CELLS,
                pieces@.len() == i,
                forall|j: int| 0 <= j < i ==> #[trigger] pieces@[j] == 0,
            decreases CELLS - i,
        {
            pieces.push(0);
            i += 1;
        }
        Board { pieces }
    }

    /// The tile at `(x, y)`, or `None` off the grid.
    pub fn get(&self, x: usize, y: usize) -> (r: Option<u16>)
        requires
            self.wf(),
        ensures
            r == (if in_bounds(x as int, y as int) {
                Some(tile(self@, x as int, y as int))
            } else {
                None
            }),
    {
        if x < SIZE && y < SIZE {
            Some(self.pieces[y * SIZE + x])
        } else {
            None
        }
    }

    /// Writes `to` at `(x, y)` and reports `true`; off the grid it writes
    /// nothing and reports `false`.
    pub fn set(&mut self, x: usize, y: usize, to: u16) -> (r: bool)
        requires
            old(self).wf(),
        ensures
            final(self).wf(),
            r == in_bounds(x as int, y as int),
            final(self)@ == (if r {
                old(self)@.update(cell_index(x as int, y as int), to)
            } else {
                old(self)@
            }),
    {
        if x < SIZE && y < SIZE {
            self.pieces[y * SIZE + x] = to;
            true
        } else {
            false
        }
    }

    /// All tiles, row by row.
    pub fn get_pieces(&self) -> (r: Vec<u16>)
        requires
            self.wf(),
        ensures
            r@ == self@,
    {
        let mut r: Vec<u16> = Vec::new();
        let mut i: usize = 0;
        while i < CELLS
            invariant
                self.wf(),
                i <= CELLS,
                r@ == self@.subrange(0, i as int),
            decreases CELLS - i,
        {
            r.push(self.pieces[i]);
            i += 1;
            assert(r@ =~= self@.subrange(0, i as int));
        }
        assert(r@ =~= self@);
        r
    }

    /// Where the tile of value `v` at `(x, y)` would come to rest in
    /// `direction`, given the cells that merges of this move produced.
    fn find_target(&self, merged: &Vec<bool>, x: usize, y: usize, direction: Direction, v: u16) -> (r: (
        usize,
        usize,
        bool,
    ))
        requires
            self.wf(),
            merged@.len() == CELLS,
            in_bounds(x as int, y as int),
        ensures
            (r.0 as int, r.1 as int, r.2) == walk(self@, merged@, direction, v, x as int, y as int),
            in_bounds(r.0 as int, r.1 as int),
    {
        proof {
            lemma_walk(self@, merged@, direction, v, x as int, y as int);
        }
        let mut cx: usize = x;
        let mut cy: usize = y;
        loop
            invariant
                self.wf(),
                merged@.len() == CELLS,
                in_bounds(cx as int, cy as int),
                walk(self@, merged@, direction, v, x as int, y as int) == walk(
                    self@,
                    merged@,
                    direction,
                    v,
                    cx as int,
                    cy as int,
                ),
            ensures
                walk(self@, merged@, direction, v, x as int, y as int) == (
                    cx as int,
                    cy as int,
                    false,
                ),
            decreases room(direction, cx as int, cy as int),
        {
            match neighbor(direction, cx, cy) {
                None => break,
                Some((nx, ny)) => {
                    let p = self.pieces[ny * SIZE + nx];
                    if p == 0 {
                        cx = nx;
                        cy = ny;
                    } else if p == v && !merged[ny * SIZE + nx] {
                        return (nx, ny, true);
                    } else {
                        break;
                    }
                },
            }
        }
        (cx, cy, false)
    }

    /// Resolves the tile at `(x, y)`: it walks toward the wall of
    /// `direction` over empty cells, merges into the first tile of its own
    /// value that it meets unless a merge of this move produced that tile,
    /// and otherwise rests on the furthest empty cell.
    fn merge_tile(&mut self, merged: &mut Vec<bool>, x: usize, y: usize, direction: Direction) -> (step: Option<
        AnimationStep,
    >)
        requires
            old(self).wf(),
            old(merged)@.len() == CELLS,
            in_bounds(x as int, y as int),
            doubling_fits(old(self)@, old(merged)@, direction, x as int, y as int),
        ensures
            final(self).wf(),
            (final(self)@, final(merged)@, step) == resolve(
                old(self)@,
                old(merged)@,
                direction,
                x as int,
                y as int,
            ),
    {
        let v = self.pieces[y * SIZE + x];
        if v == 0 {
            return None;
        }
        let (tx, ty, merge) = self.find_target(merged, x, y, direction, v);
        proof {
            lemma_walk(self@, merged@, direction, v, x as int, y as int);
        }
        if merge {
            self.pieces[ty * SIZE + tx] = v * 2;
            self.pieces[y * SIZE + x] = 0;
            merged.set(ty * SIZE + tx, true);
            Some(AnimationStep::new(x, y, tx, ty, true))
        } else if tx != x || ty != y {
            self.pieces[ty * SIZE + tx] = v;
            self.pieces[y * SIZE + x] = 0;
            Some(AnimationStep::new(x, y, tx, ty, false))
        } else {
            None
        }
    }

    /// Whether a move in `direction` doubles no tile past `u16::MAX`.
    pub fn move_fits(&self, direction: Direction) -> (r: bool)
        requires
            self.wf(),
        ensures
            r == no_overflow(self@, direction),
    {
        let ghost g = self@;
        let mut b = Board { pieces: self.get_pieces() };
        let mut merged: Vec<bool> = Vec::new();
        let mut i: usize = 0;
        while i < CELLS
            invariant
                i <= CELLS,
                merged@.len() == i,
                forall|j: int| 0 <= j < i ==> !#[trigger] merged@[j],
            decreases CELLS - i,
        {
            merged.push(false);
            i += 1;
        }
        assert(merged@ =~= no_marks());
        let mut k: usize = 0;
        while k < CELLS
            invariant
                k <= CELLS,
                b.wf(),
                merged@.len() == CELLS,
                g == self@,
                b@ == run(g, direction, k as nat).0,
                merged@ == run(g, direction, k as nat).2,
                fits_upto(g, direction, k as nat),
            decreases CELLS - k,
        {
            let (x, y) = scan_position(direction, k);
            let v = b.pieces[y * SIZE + x];
            proof {
                lemma_resolve_conserves(b@, merged@, direction, x as int, y as int);
            }
            if v != 0 {
                let (_, _, merge) = b.find_target(&merged, x, y, direction, v);
                if merge && v > 32767 {
                    proof {
                        assert(!fits_upto(g, direction, (k + 1) as nat));
                        if no_overflow(g, direction) {
                            lemma_fits_prefix(g, direction, (k + 1) as nat, CELLS as nat);
                        }
                    }
                    return false;
                }
            }
            b.merge_tile(&mut merged, x, y, direction);
            k += 1;
        }
        true
    }

    /// Slides every tile toward the wall of `direction`, merging equal tiles,
    /// each tile at most once, and returns one step per tile that moved or
    /// merged, in scan order.
    pub fn merge_all(&mut self, direction: Direction) -> (steps: Vec<AnimationStep>)
        requires
            old(self).wf(),
            no_overflow(old(self)@, direction),
        ensures
            final(self).wf(),
            (final(self)@, steps@) == moved(old(self)@, direction),
    {
        let ghost g = self@;
        let mut merged: Vec<bool> = Vec::new();
        let mut i: usize = 0;
        while i < CELLS
            invariant
                i <= CELLS,
                merged@.len() == i,
                forall|j: int| 0 <= j < i ==> !#[trigger] merged@[j],
            decreases CELLS - i,
        {
            merged.push(false);
            i += 1;
        }
        assert(merged@ =~= no_marks());
        let mut steps: Vec<AnimationStep> = Vec::new();
        let mut k: usize = 0;
        while k < CELLS
            invariant
                k <= CELLS,
                self.wf(),
                merged@.len() == CELLS,
                (self@, steps@, merged@) == run(g, direction, k as nat),
                no_overflow(g, direction),
            decreases CELLS - k,
        {
            let (x, y) = scan_position(direction, k);
            proof {
                lemma_fits_prefix(g, direction, (k + 1) as nat, CELLS as nat);
                lemma_resolve_conserves(self@, merged@, direction, x as int, y as int);
            }
            match self.merge_tile(&mut merged, x, y, direction) {
                Some(s) => steps.push(s),
                None => {},
            }
            k += 1;
        }
        steps
    }

    /// The empty cells, as `(x, y)`, row by row.
    pub fn empty_cells(&self) -> (r: Vec<(usize, usize)>)
        requires
            self.wf(),
        ensures
            r@ == empty_cells_of(self@),
    {
        let mut r: Vec<(usize, usize)> = Vec::new();
        let mut i: usize = 0;
        while i < CELLS
            invariant
                self.wf(),
                i <= CELLS,
                r@ == empties_upto(self@, i as int),
            decreases CELLS - i,
        {
            if self.pieces[i] == 0 {
                r.push((i % SIZE, i / SIZE));
            }
            i += 1;
        }
        r
    }

    /// Places a new tile on an empty cell: `pick` chooses the cell among the
    /// empty cells row by row (modulo their number), `roll`, a percentage,
    /// chooses the value. Returns `[x, y, value]`, or nothing on a full grid.
    pub fn set_random_from(&mut self, pick: usize, roll: u64) -> (r: Vec<usize>)
        requires
            old(self).wf(),
        ensures
            final(self).wf(),
            (final(self)@, r@) == spawned(old(self)@, pick, roll),
    {
        let empty = self.empty_cells();
        if empty.len() == 0 {
            return Vec::new();
        }
        proof {
            lemma_empties(self@, CELLS as int);
        }
        let (x, y) = empty[pick % empty.len()];
        let value: u16 = if roll < SPAWN_TWO_PERCENT {
            2
        } else {
            4
        };
        self.set(x, y, value);
        let mut r: Vec<usize> = Vec::new();
        r.push(x);
        r.push(y);
        r.push(value as usize);
        assert(r@ =~= seq![x, y, value as usize]);
        r
    }
}

} // verus!
