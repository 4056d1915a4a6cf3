//! Laws that relate the move rules to one another.
use vstd::prelude::*;
use crate::grid::{
    NCELLS, adjacent, at, can_move_spec, can_slide, front, lemma_at, lemma_front, lemma_line,
    lemma_slide_line, line_count, line_holds, line_len, line_values, place_holds, settled,
    slide_line,
};
use crate::tile::{Direction, Tile};

verus! {

/// On a full grid where no two cells that share a side hold equal values,
/// no tile can slide or merge in any direction: every move leaves such a
/// grid as it is.
pub proof fn law_stuck_grid_cannot_slide(g: Seq<Tile>, d: Direction)
    requires
        g.len() == NCELLS,
        !can_move_spec(g),
    ensures
        !can_slide(g, d),
{
    assert forall|i: int| 0 <= i < NCELLS implies #[trigger] settled(g, i, d) by {
        lemma_front(i, d);
        let j = front(i, d);
        if j >= 0 {
            assert(adjacent(i, j));
            assert(g[j].value != 0);
        }
    }
}

/// A grid without merge marks on which no tile can slide in direction `d`
/// (a move in that direction reports that nothing moved) holds, line by
/// line, exactly what `move_all` leaves after a move in that direction. The
/// move leaves it as it is, so the same move made again moves nothing.
pub proof fn law_no_move_repeats(g: Seq<Tile>, d: Direction)
    requires
        g.len() == NCELLS,
        forall|i: int| 0 <= i < NCELLS ==> !(#[trigger] g[i]).merge_blocked,
        !can_slide(g, d),
    ensures
        forall|l: int|
            0 <= l < line_count(d) ==> #[trigger] line_holds(
                g,
                d,
                l,
                slide_line(line_values(g, d, l, line_len(d))),
                line_len(d),
            ),
{
    assert forall|l: int| 0 <= l < line_count(d) implies #[trigger] line_holds(
        g,
        d,
        l,
        slide_line(line_values(g, d, l, line_len(d))),
        line_len(d),
    ) by {
        lemma_still_line(g, d, l, line_len(d));
    }
}

/// The first `n` places of a line in which no tile can slide hold what
/// packing them gives.
proof fn lemma_still_line(g: Seq<Tile>, d: Direction, l: int, n: int)
    requires
        g.len() == NCELLS,
        0 <= l < line_count(d),
        0 <= n <= line_len(d),
        forall|i: int| 0 <= i < NCELLS ==> !(#[trigger] g[i]).merge_blocked,
        !can_slide(g, d),
    ensures
        line_holds(g, d, l, slide_line(line_values(g, d, l, n)), n),
    decreases n,
{
    if n > 0 {
        lemma_still_line(g, d, l, n - 1);
        let vals = line_values(g, d, l, n - 1);
        let vals1 = line_values(g, d, l, n);
        assert(vals1.drop_last() == vals);
        let acc = slide_line(vals);
        assert forall|q: int| 0 <= q < vals.len() implies #[trigger] vals[q] >= 0 by {}
        lemma_slide_line(vals);
        let c = at(d, l, n - 1);
        lemma_at(d, l, n - 1);
        let v = g[c].value as int;
        assert(vals1.last() == v);
        assert(!g[c].merge_blocked);
        if v == 0 {
            assert forall|p: int| 0 <= p < n implies #[trigger] place_holds(g, d, l, acc, p) by {
                if p < n - 1 {
                    assert(place_holds(g, d, l, acc, p));
                }
            }
        } else {
            assert(settled(g, c, d));
            if n - 1 > 0 {
                lemma_line(c, d);
                lemma_at(d, l, n - 2);
                let f = at(d, l, n - 2);
                assert(place_holds(g, d, l, acc, n - 2));
                assert(!g[f].merge_blocked);
                assert(acc.len() == n - 1);
                assert(acc.last() == acc[n - 2]);
            }
            let r = acc.push((v, false));
            assert(slide_line(vals1) == r);
            assert forall|p: int| 0 <= p < n implies #[trigger] place_holds(g, d, l, r, p) by {
                if p < n - 1 {
                    assert(place_holds(g, d, l, acc, p));
                    assert(r[p] == acc[p]);
                }
            }
        }
    }
}

/// Once a sweep has run, no tile is left that could still slide or merge in
/// the same direction.
pub proof fn law_swept_grid_cannot_slide(g: Seq<Tile>, d: Direction)
    requires
        g.len() == NCELLS,
        forall|i: int| 0 <= i < NCELLS ==> settled(g, i, d),
    ensures
        !can_slide(g, d),
{
}

} // verus!
