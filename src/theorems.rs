use vstd::prelude::*;

use crate::animation::AnimationStep;
use crate::board::{
    cell_index, delta, fits_upto, in_bounds, lemma_empties, lemma_fits_prefix,
    lemma_resolve_conserves, lemma_walk, moved, no_marks, no_overflow, resolve, room, run,
    scan_cell, spawned, tile, walk, Direction, CELLS,
};
use crate::grid_math::{grid_sum, occupied};

verus! {

/// Number of steps of a sequence that are merges.
pub open spec fn merge_count(s: Seq<AnimationStep>) -> int
    decreases s.len(),
{
    if s.len() == 0 {
        0
    } else {
        merge_count(s.drop_last()) + if s.last().is_merge { 1int } else { 0int }
    }
}

/// Position of cell `(x, y)` in the scan order of direction `d`.
pub open spec fn scan_rank(d: Direction, x: int, y: int) -> int {
    match d {
        Direction::Down => (3 - y) * 4 + x,
        Direction::Right => y * 4 + (3 - x),
        _ => y * 4 + x,
    }
}

/// Some tile has, right ahead of it in direction `d`, an empty cell or a tile
/// of its own value.
pub open spec fn can_act(g: Seq<u16>, d: Direction) -> bool {
    exists|x: int, y: int|
        {
            &&& in_bounds(x, y)
            &&& #[trigger] tile(g, x, y) != 0
            &&& in_bounds(x + delta(d).0, y + delta(d).1)
            &&& (tile(g, x + delta(d).0, y + delta(d).1) == 0 || tile(
                g,
                x + delta(d).0,
                y + delta(d).1,
            ) == tile(g, x, y))
        }
}

/// A step keeps to its line: it moves along the axis of `d` only.
pub open spec fn on_line(d: Direction, s: AnimationStep) -> bool {
    &&& (delta(d).0 == 0 ==> s.to_x == s.from_x)
    &&& (delta(d).1 == 0 ==> s.to_y == s.from_y)
}

proof fn lemma_scan_cell(d: Direction, k: int)
    requires
        0 <= k < CELLS,
    ensures
        in_bounds(scan_cell(d, k).0, scan_cell(d, k).1),
        scan_rank(d, scan_cell(d, k).0, scan_cell(d, k).1) == k,
{
}

/// The shape of one resolution: it changes nothing, or it records a step
/// from the resolved cell to a cell nearer the wall on the same line.
proof fn lemma_resolve_step(g: Seq<u16>, m: Seq<bool>, d: Direction, x: int, y: int)
    requires
        g.len() == CELLS,
        m.len() == CELLS,
        in_bounds(x, y),
    ensures
        ({
            let r = resolve(g, m, d, x, y);
            &&& r.0.len() == CELLS
            &&& r.1.len() == CELLS
            &&& r.2 is None ==> r.0 == g && r.1 == m
            &&& r.2 is Some ==> {
                let s = r.2->0;
                let to = cell_index(s.to_x as int, s.to_y as int);
                let v = tile(g, x, y);
                &&& s.from_x == x && s.from_y == y
                &&& v != 0
                &&& in_bounds(s.to_x as int, s.to_y as int)
                &&& room(d, s.to_x as int, s.to_y as int) < room(d, x, y)
                &&& scan_rank(d, s.to_x as int, s.to_y as int) < scan_rank(d, x, y)
                &&& 0 < room(d, x, y)
                &&& on_line(d, s)
                &&& s.is_merge ==> g[to] == v && !m[to] && r.1 == m.update(to, true) && r.0
                    == g.update(to, (2 * v) as u16).update(cell_index(x, y), 0)
                &&& !s.is_merge ==> g[to] == 0 && r.1 == m && r.0 == g.update(to, v).update(
                    cell_index(x, y),
                    0,
                )
            }
        }),
{
    lemma_walk(g, m, d, tile(g, x, y), x, y);
}

proof fn lemma_run_conserves(g: Seq<u16>, d: Direction, k: nat)
    requires
        g.len() == CELLS,
        k <= CELLS,
    ensures
        ({
            let r = run(g, d, k);
            &&& r.0.len() == CELLS
            &&& r.2.len() == CELLS
            &&& 0 <= merge_count(r.1)
            &&& fits_upto(g, d, k) ==> grid_sum(r.0) == grid_sum(g)
            &&& fits_upto(g, d, k) ==> occupied(r.0) == occupied(g) - merge_count(r.1)
            &&& merge_count(r.1) == 0 ==> r.0.to_multiset() == g.to_multiset()
        }),
    decreases k,
{
    if k > 0 {
        lemma_run_conserves(g, d, (k - 1) as nat);
        let prev = run(g, d, (k - 1) as nat);
        let c = scan_cell(d, k - 1);
        lemma_scan_cell(d, k - 1);
        lemma_resolve_conserves(prev.0, prev.2, d, c.0, c.1);
        let r = resolve(prev.0, prev.2, d, c.0, c.1);
        if r.2 is Some {
            assert(prev.1.push(r.2->0).drop_last() =~= prev.1);
        }
    }
}

/// When no doubling of a move passes `u16::MAX`, the move keeps the sum of
/// the tiles, and every merge empties one cell, so the number of tiles drops
/// by the number of merge steps and never grows.
pub proof fn lemma_move_conserves(g: Seq<u16>, d: Direction)
    requires
        g.len() == CELLS,
        no_overflow(g, d),
    ensures
        ({
            let m = moved(g, d);
            &&& m.0.len() == CELLS
            &&& grid_sum(m.0) == grid_sum(g)
            &&& occupied(m.0) == occupied(g) - merge_count(m.1)
            &&& occupied(m.0) <= occupied(g)
        }),
{
    lemma_run_conserves(g, d, CELLS as nat);
}

/// A move without merge steps keeps the values of the grid as a whole: its
/// tiles only change places.
pub proof fn lemma_slides_keep_tiles(g: Seq<u16>, d: Direction)
    requires
        g.len() == CELLS,
    ensures
        merge_count(moved(g, d).1) == 0 ==> moved(g, d).0.to_multiset() == g.to_multiset(),
{
    lemma_run_conserves(g, d, CELLS as nat);
}

/// What holds after the first `k` resolutions of a move.
pub open spec fn run_facts(g: Seq<u16>, d: Direction, k: nat) -> bool {
    let r = run(g, d, k);
    &&& r.0.len() == CELLS
    &&& r.2.len() == CELLS
    &&& forall|x: int, y: int|
        in_bounds(x, y) && scan_rank(d, x, y) >= k ==> #[trigger] tile(r.0, x, y) == tile(g, x, y)
    &&& forall|i: int|
        0 <= i < r.1.len() ==> {
            let s = #[trigger] r.1[i];
            &&& in_bounds(s.from_x as int, s.from_y as int)
            &&& in_bounds(s.to_x as int, s.to_y as int)
            &&& scan_rank(d, s.from_x as int, s.from_y as int) < k
            &&& scan_rank(d, s.to_x as int, s.to_y as int) < scan_rank(
                d,
                s.from_x as int,
                s.from_y as int,
            )
            &&& 0 < room(d, s.from_x as int, s.from_y as int)
            &&& on_line(d, s)
            &&& tile(g, s.from_x as int, s.from_y as int) != 0
            &&& s.is_merge ==> r.2[cell_index(s.to_x as int, s.to_y as int)]
            &&& (s.is_merge && fits_upto(g, d, k)) ==> tile(r.0, s.to_x as int, s.to_y as int) == 2
                * tile(g, s.from_x as int, s.from_y as int)
        }
    &&& forall|i: int, j: int|
        0 <= i < j < r.1.len() ==> scan_rank(d, #[trigger] r.1[i].from_x as int, r.1[i].from_y as int)
            < scan_rank(d, #[trigger] r.1[j].from_x as int, r.1[j].from_y as int)
    &&& forall|i: int, j: int|
        0 <= i < j < r.1.len() && r.1[i].is_merge && r.1[j].is_merge ==> (#[trigger] r.1[i].to_x
            != #[trigger] r.1[j].to_x || r.1[i].to_y != r.1[j].to_y)
}

proof fn lemma_run_facts(g: Seq<u16>, d: Direction, k: nat)
    requires
        g.len() == CELLS,
        k <= CELLS,
    ensures
        run_facts(g, d, k),
    decreases k,
{
    if k > 0 {
        lemma_run_facts(g, d, (k - 1) as nat);
        let prev = run(g, d, (k - 1) as nat);
        let c = scan_cell(d, k - 1);
        lemma_scan_cell(d, k - 1);
        lemma_resolve_step(prev.0, prev.2, d, c.0, c.1);
        let r = resolve(prev.0, prev.2, d, c.0, c.1);
        let fits = fits_upto(g, d, k);
        if r.2 is Some {
            let t = r.2->0;
            let q = prev.1.push(t);
            let to = cell_index(t.to_x as int, t.to_y as int);
            let o = cell_index(c.0, c.1);
            assert(scan_rank(d, t.from_x as int, t.from_y as int) == k - 1);
            assert(tile(prev.0, c.0, c.1) == tile(g, c.0, c.1));
            assert forall|x: int, y: int|
                in_bounds(x, y) && scan_rank(d, x, y) >= k implies #[trigger] tile(r.0, x, y)
                == tile(g, x, y) by {
                assert(cell_index(x, y) != to);
                assert(cell_index(x, y) != o);
                assert(tile(prev.0, x, y) == tile(g, x, y));
            }
            assert forall|i: int| 0 <= i < q.len() implies {
                let s = #[trigger] q[i];
                &&& in_bounds(s.from_x as int, s.from_y as int)
                &&& in_bounds(s.to_x as int, s.to_y as int)
                &&& scan_rank(d, s.from_x as int, s.from_y as int) < k
                &&& scan_rank(d, s.to_x as int, s.to_y as int) < scan_rank(
                    d,
                    s.from_x as int,
                    s.from_y as int,
                )
                &&& 0 < room(d, s.from_x as int, s.from_y as int)
                &&& on_line(d, s)
                &&& tile(g, s.from_x as int, s.from_y as int) != 0
                &&& s.is_merge ==> r.1[cell_index(s.to_x as int, s.to_y as int)]
                &&& (s.is_merge && fits) ==> tile(r.0, s.to_x as int, s.to_y as int) == 2 * tile(
                    g,
                    s.from_x as int,
                    s.from_y as int,
                )
            } by {
                if i < prev.1.len() {
                    let s = prev.1[i];
                    assert(q[i] == s);
                    let si = cell_index(s.to_x as int, s.to_y as int);
                    assert(si != o);
                    if s.is_merge {
                        assert(prev.2[si]);
                        if fits {
                            assert(fits_upto(g, d, (k - 1) as nat));
                            assert(tile(prev.0, s.to_x as int, s.to_y as int) != 0);
                            assert(si != to);
                        }
                    }
                } else {
                    assert(q[i] == t);
                    if t.is_merge && fits {
                        assert(r.0[to] == (2 * tile(g, c.0, c.1)) as u16);
                    }
                }
            }
            assert forall|i: int, j: int| 0 <= i < j < q.len() implies scan_rank(
                d,
                #[trigger] q[i].from_x as int,
                q[i].from_y as int,
            ) < scan_rank(d, #[trigger] q[j].from_x as int, q[j].from_y as int) by {
                assert(q[i] == prev.1[i]);
                if j < prev.1.len() {
                    assert(q[j] == prev.1[j]);
                } else {
                    assert(q[j] == t);
                    assert(scan_rank(d, prev.1[i].from_x as int, prev.1[i].from_y as int) < k
                        - 1);
                }
            }
            assert forall|i: int, j: int|
                0 <= i < j < q.len() && q[i].is_merge && q[j].is_merge implies (
                #[trigger] q[i].to_x != #[trigger] q[j].to_x || q[i].to_y != q[j].to_y) by {
                assert(q[i] == prev.1[i]);
                if j < prev.1.len() {
                    assert(q[j] == prev.1[j]);
                } else {
                    assert(q[j] == t);
                    assert(prev.2[cell_index(prev.1[i].to_x as int, prev.1[i].to_y as int)]);
                }
            }
        } else {
            assert forall|x: int, y: int|
                in_bounds(x, y) && scan_rank(d, x, y) >= k implies #[trigger] tile(r.0, x, y)
                == tile(g, x, y) by {
                assert(tile(prev.0, x, y) == tile(g, x, y));
            }
            if fits {
                assert(fits_upto(g, d, (k - 1) as nat));
            }
        }
    }
}

/// Every step of a move starts from a cell that held a tile before the move
/// and keeps to its line, moving toward the wall. No two steps start from the
/// same cell, and steps come in scan order; no step starts from a cell that
/// an earlier step moved or merged a tile into. No two merges of a move share
/// a destination, and when no doubling passes `u16::MAX`, each merge
/// destination ends holding twice the value that its origin held before the
/// move: a tile takes part in at most one merge per move.
pub proof fn lemma_each_tile_merges_once(g: Seq<u16>, d: Direction)
    requires
        g.len() == CELLS,
    ensures
        ({
            let m = moved(g, d);
            let s = m.1;
            &&& forall|i: int|
                0 <= i < s.len() ==> {
                    let t = #[trigger] s[i];
                    &&& in_bounds(t.from_x as int, t.from_y as int)
                    &&& tile(g, t.from_x as int, t.from_y as int) != 0
                    &&& on_line(d, t)
                    &&& room(d, t.to_x as int, t.to_y as int) < room(
                        d,
                        t.from_x as int,
                        t.from_y as int,
                    )
                    &&& (t.is_merge && no_overflow(g, d)) ==> tile(
                        m.0,
                        t.to_x as int,
                        t.to_y as int,
                    ) == 2 * tile(g, t.from_x as int, t.from_y as int)
                }
            &&& forall|i: int, j: int|
                0 <= i < j < s.len() ==> {
                    &&& scan_rank(d, (#[trigger] s[i]).from_x as int, s[i].from_y as int)
                        < scan_rank(d, (#[trigger] s[j]).from_x as int, s[j].from_y as int)
                    &&& s[i].from_x != s[j].from_x || s[i].from_y != s[j].from_y
                    &&& s[i].to_x != s[j].from_x || s[i].to_y != s[j].from_y
                    &&& (s[i].is_merge && s[j].is_merge) ==> (s[i].to_x != s[j].to_x || s[i].to_y
                        != s[j].to_y)
                }
        }),
{
    lemma_run_facts(g, d, CELLS as nat);
    let s = moved(g, d).1;
    assert forall|i: int| 0 <= i < s.len() implies room(
        d,
        (#[trigger] s[i]).to_x as int,
        s[i].to_y as int,
    ) < room(d, s[i].from_x as int, s[i].from_y as int) by {
        let t = s[i];
        assert(scan_rank(d, t.to_x as int, t.to_y as int) < scan_rank(
            d,
            t.from_x as int,
            t.from_y as int,
        ));
    }
}

proof fn lemma_run_stuck(g: Seq<u16>, d: Direction, k: nat)
    requires
        g.len() == CELLS,
        !can_act(g, d),
        k <= CELLS,
    ensures
        run(g, d, k) == (g, Seq::<AnimationStep>::empty(), no_marks()),
        fits_upto(g, d, k),
    decreases k,
{
    if k > 0 {
        lemma_run_stuck(g, d, (k - 1) as nat);
        let c = scan_cell(d, k - 1);
        lemma_scan_cell(d, k - 1);
        let v = tile(g, c.0, c.1);
        let nx = c.0 + delta(d).0;
        let ny = c.1 + delta(d).1;
        if v != 0 {
            if in_bounds(nx, ny) {
                assert(!(tile(g, nx, ny) == 0 || tile(g, nx, ny) == v));
            }
            assert(walk(g, no_marks(), d, v, c.0, c.1) == (c.0, c.1, false));
        }
    }
}

/// A move in a direction where no tile has an empty cell or a tile of its own
/// value right ahead doubles nothing, leaves the grid as it is and yields no
/// step.
pub proof fn lemma_stuck_move_is_identity(g: Seq<u16>, d: Direction)
    requires
        g.len() == CELLS,
        !can_act(g, d),
    ensures
        no_overflow(g, d),
        moved(g, d) == (g, Seq::<AnimationStep>::empty()),
{
    lemma_run_stuck(g, d, CELLS as nat);
}

proof fn lemma_run_quiet(g: Seq<u16>, d: Direction, k: nat)
    requires
        g.len() == CELLS,
        k <= CELLS,
    ensures
        run(g, d, k).1.len() == 0 ==> run(g, d, k).0 == g,
    decreases k,
{
    if k > 0 {
        lemma_run_quiet(g, d, (k - 1) as nat);
        let prev = run(g, d, (k - 1) as nat);
        let c = scan_cell(d, k - 1);
        lemma_scan_cell(d, k - 1);
        lemma_run_conserves(g, d, (k - 1) as nat);
        lemma_resolve_step(prev.0, prev.2, d, c.0, c.1);
    }
}

/// A move that changes the grid yields at least one step; equivalently, a
/// move that yields no step leaves the grid as it is.
pub proof fn lemma_no_step_no_change(g: Seq<u16>, d: Direction)
    requires
        g.len() == CELLS,
    ensures
        moved(g, d).0 != g ==> moved(g, d).1.len() > 0,
{
    lemma_run_quiet(g, d, CELLS as nat);
}

/// Whether some merge step among `s` ends in cell `(x, y)`.
pub open spec fn merged_into(s: Seq<AnimationStep>, x: int, y: int) -> bool {
    exists|i: int|
        0 <= i < s.len() && (#[trigger] s[i]).is_merge && s[i].to_x == x && s[i].to_y == y
}

proof fn lemma_run_wall(g: Seq<u16>, d: Direction, k: nat, x: int, y: int)
    requires
        g.len() == CELLS,
        k <= CELLS,
        in_bounds(x, y),
        room(d, x, y) == 0,
        tile(g, x, y) != 0,
    ensures
        tile(run(g, d, k).0, x, y) == tile(g, x, y) || merged_into(run(g, d, k).1, x, y),
    decreases k,
{
    if k > 0 {
        lemma_run_wall(g, d, (k - 1) as nat, x, y);
        lemma_run_conserves(g, d, (k - 1) as nat);
        let prev = run(g, d, (k - 1) as nat);
        let c = scan_cell(d, k - 1);
        lemma_scan_cell(d, k - 1);
        lemma_resolve_step(prev.0, prev.2, d, c.0, c.1);
        let r = resolve(prev.0, prev.2, d, c.0, c.1);
        if r.2 is Some {
            let t = r.2->0;
            let q = prev.1.push(t);
            assert(cell_index(x, y) != cell_index(c.0, c.1));
            if merged_into(prev.1, x, y) {
                let i = choose|i: int|
                    0 <= i < prev.1.len() && (#[trigger] prev.1[i]).is_merge && prev.1[i].to_x
                        == x && prev.1[i].to_y == y;
                assert(q[i] == prev.1[i]);
            } else if t.is_merge && t.to_x == x && t.to_y == y {
                assert(q[prev.1.len() as int] == t);
            } else {
                assert(cell_index(x, y) != cell_index(t.to_x as int, t.to_y as int));
            }
        }
    }
}

/// A tile against the wall that a move heads for stays where it is: no step
/// of the move starts from its cell, and the cell keeps its value unless a
/// merge step of the move ends there.
pub proof fn lemma_wall_tile_stays(g: Seq<u16>, d: Direction, x: int, y: int)
    requires
        g.len() == CELLS,
        in_bounds(x, y),
        room(d, x, y) == 0,
        tile(g, x, y) != 0,
    ensures
        forall|i: int|
            0 <= i < moved(g, d).1.len() ==> {
                let s = #[trigger] moved(g, d).1[i];
                s.from_x != x || s.from_y != y
            },
        tile(moved(g, d).0, x, y) == tile(g, x, y) || merged_into(moved(g, d).1, x, y),
{
    lemma_run_facts(g, d, CELLS as nat);
    lemma_run_wall(g, d, CELLS as nat, x, y);
}

/// A spawn writes only to a cell that was empty and keeps every other cell;
/// on a full grid it changes nothing and reports no placement; otherwise it
/// reports the cell it filled and the value, 2 or 4, it wrote there.
pub proof fn lemma_spawn_respects_emptiness(g: Seq<u16>, pick: usize, roll: u64)
    requires
        g.len() == CELLS,
    ensures
        ({
            let s = spawned(g, pick, roll);
            &&& s.0.len() == CELLS
            &&& forall|i: int| 0 <= i < CELLS && g[i] != 0 ==> #[trigger] s.0[i] == g[i]
            &&& (forall|i: int| 0 <= i < CELLS ==> #[trigger] g[i] != 0) ==> s.0 == g && s.1.len()
                == 0
            &&& (exists|i: int| 0 <= i < CELLS && #[trigger] g[i] == 0) ==> {
                &&& s.1.len() == 3
                &&& in_bounds(s.1[0] as int, s.1[1] as int)
                &&& tile(g, s.1[0] as int, s.1[1] as int) == 0
                &&& (s.1[2] == 2 || s.1[2] == 4)
                &&& s.0 == g.update(cell_index(s.1[0] as int, s.1[1] as int), s.1[2] as u16)
            }
        }),
{
    lemma_empties(g, CELLS as int);
}

} // verus!
