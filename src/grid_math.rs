use vstd::prelude::*;

verus! {

/// Sum of all tile values of a grid.
pub open spec fn grid_sum(g: Seq<u16>) -> int
    decreases g.len(),
{
    if g.len() == 0 {
        0
    } else {
        grid_sum(g.drop_last()) + g.last()
    }
}

/// Number of non-empty cells of a grid.
pub open spec fn occupied(g: Seq<u16>) -> int
    decreases g.len(),
{
    if g.len() == 0 {
        0
    } else {
        occupied(g.drop_last()) + if g.last() != 0 { 1int } else { 0int }
    }
}

/// Writing one cell changes the sum and the count of occupied cells by what
/// that cell held and now holds.
pub proof fn lemma_update(g: Seq<u16>, i: int, v: u16)
    requires
        0 <= i < g.len(),
    ensures
        grid_sum(g.update(i, v)) == grid_sum(g) - g[i] + v,
        occupied(g.update(i, v)) == occupied(g) - (if g[i] != 0 { 1int } else { 0int }) + (
        if v != 0 { 1int } else { 0int }),
    decreases g.len(),
{
    if i == g.len() - 1 {
        assert(g.update(i, v).drop_last() =~= g.drop_last());
    } else {
        lemma_update(g.drop_last(), i, v);
        assert(g.update(i, v).drop_last() =~= g.drop_last().update(i, v));
    }
}

} // verus!
