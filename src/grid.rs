//! The grid as a sequence of cells, and the facts about it that the move
//! rules rest on.
use vstd::prelude::*;
use crate::tile::{Direction, Tile, offset_of};

verus! {

pub const NCOLS: usize = 5;
pub const NROWS: usize = 4;
pub const NCELLS: usize = NCOLS * NROWS;

/// Cells are numbered column by column.
pub open spec fn cell(x: int, y: int) -> int {
    x * NROWS as int + y
}

pub open spec fn in_grid(x: int, y: int) -> bool {
    0 <= x < NCOLS as int && 0 <= y < NROWS as int
}

/// The cell that a tile in cell `i` advances into when pushed in direction
/// `d`, or -1 where it stands at the edge.
pub open spec fn front(i: int, d: Direction) -> int {
    let x = i / NROWS as int + offset_of(d).0;
    let y = i % NROWS as int + offset_of(d).1;
    if in_grid(x, y) {
        cell(x, y)
    } else {
        -1
    }
}

/// Two cells share a side.
pub open spec fn adjacent(i: int, j: int) -> bool {
    exists|d: Direction| #[trigger] front(i, d) == j && j >= 0
}

/// The number of cells in one line of a sweep in direction `d`: a row for
/// a sideways push, a column for an upward or downward one.
pub open spec fn line_len(d: Direction) -> int {
    match d {
        Direction::Left | Direction::Right => NCOLS as int,
        Direction::Up | Direction::Down => NROWS as int,
    }
}

/// The number of lines of a sweep in direction `d`.
pub open spec fn line_count(d: Direction) -> int {
    match d {
        Direction::Left | Direction::Right => NROWS as int,
        Direction::Up | Direction::Down => NCOLS as int,
    }
}

/// The cell at place `p` of line `l` in a sweep in direction `d`, place 0
/// being the one at the edge that the tiles are pushed to.
pub open spec fn at(d: Direction, l: int, p: int) -> int {
    match d {
        Direction::Left => cell(p, l),
        Direction::Right => cell(NCOLS - 1 - p, l),
        Direction::Up => cell(l, p),
        Direction::Down => cell(l, NROWS - 1 - p),
    }
}

/// The line of cell `i` in a sweep in direction `d`.
pub open spec fn line_of(i: int, d: Direction) -> int {
    match d {
        Direction::Left | Direction::Right => i % NROWS as int,
        Direction::Up | Direction::Down => i / NROWS as int,
    }
}

/// The place of cell `i` in its line, counted from the edge that the tiles
/// are pushed to.
pub open spec fn pos_of(i: int, d: Direction) -> int {
    match d {
        Direction::Left => i / NROWS as int,
        Direction::Right => NCOLS - 1 - i / NROWS as int,
        Direction::Up => i % NROWS as int,
        Direction::Down => NROWS - 1 - i % NROWS as int,
    }
}

/// The place of cell `i` in a sweep in direction `d`: line after line, and
/// in each line the cells nearest the edge that the tiles are pushed to
/// first.
#[verifier::opaque]
pub open spec fn rank(i: int, d: Direction) -> int {
    line_of(i, d) * line_len(d) + pos_of(i, d)
}

pub proof fn lemma_line(i: int, d: Direction)
    requires
        0 <= i < NCELLS,
    ensures
        0 <= line_of(i, d) < line_count(d),
        0 <= pos_of(i, d) < line_len(d),
        at(d, line_of(i, d), pos_of(i, d)) == i,
        0 <= rank(i, d) < NCELLS,
        rank(i, d) == line_of(i, d) * line_len(d) + pos_of(i, d),
        front(i, d) == (if pos_of(i, d) > 0 {
            at(d, line_of(i, d), pos_of(i, d) - 1)
        } else {
            -1
        }),
{
    reveal(rank);
    match d {
        Direction::Left => {},
        Direction::Right => {},
        Direction::Up => {},
        Direction::Down => {},
    }
    let a = line_of(i, d);
    let b = pos_of(i, d);
    let m = line_len(d);
    let c = line_count(d);
    assert(c * m == NCELLS) by {
        match d {
            Direction::Left => {},
            Direction::Right => {},
            Direction::Up => {},
            Direction::Down => {},
        }
    }
    assert(0 <= a * m + b < c * m) by (nonlinear_arith)
        requires
            0 <= a < c,
            0 <= b < m,
    ;
}

pub proof fn lemma_rank_injective(i: int, j: int, d: Direction)
    requires
        0 <= i < NCELLS,
        0 <= j < NCELLS,
        rank(i, d) == rank(j, d),
    ensures
        i == j,
{
    reveal(rank);
    lemma_line(i, d);
    lemma_line(j, d);
    lemma_digits(line_of(i, d), pos_of(i, d), line_of(j, d), pos_of(j, d), line_len(d));
}

/// A number written with two digits in base `m` has only one such form.
pub proof fn lemma_digits(a: int, b: int, c: int, e: int, m: int)
    requires
        0 <= b < m,
        0 <= e < m,
        a * m + b == c * m + e,
    ensures
        a == c,
        b == e,
{
    assert(a == c) by (nonlinear_arith)
        requires
            0 <= b < m,
            0 <= e < m,
            a * m + b == c * m + e,
    ;
}

pub proof fn lemma_at(d: Direction, l: int, p: int)
    requires
        0 <= l < line_count(d),
        0 <= p < line_len(d),
    ensures
        0 <= at(d, l, p) < NCELLS,
        line_of(at(d, l, p), d) == l,
        pos_of(at(d, l, p), d) == p,
        rank(at(d, l, p), d) == l * line_len(d) + p,
{
    reveal(rank);
    match d {
        Direction::Left => {},
        Direction::Right => {},
        Direction::Up => {},
        Direction::Down => {},
    }
}

/// The sum of the values of all tiles.
pub open spec fn grid_sum(g: Seq<Tile>) -> int
    decreases g.len(),
{
    if g.len() == 0 {
        0
    } else {
        grid_sum(g.drop_last()) + g.last().value
    }
}

/// The sum of a list of merge results.
pub open spec fn total(s: Seq<usize>) -> int
    decreases s.len(),
{
    if s.len() == 0 {
        0
    } else {
        total(s.drop_last()) + s.last()
    }
}

/// The tile in cell `i` cannot advance in direction `d`: the cell is empty,
/// stands at the edge, or faces a tile that it may not merge with.
pub open spec fn settled(g: Seq<Tile>, i: int, d: Direction) -> bool {
    let j = front(i, d);
    g[i].value != 0 && j >= 0 ==> g[j].value != 0 && (g[j].value != g[i].value
        || g[i].merge_blocked || g[j].merge_blocked)
}

/// Some tile can slide or merge when the tiles are pushed in direction `d`.
pub open spec fn can_slide(g: Seq<Tile>, d: Direction) -> bool {
    exists|i: int| 0 <= i < NCELLS && !#[trigger] settled(g, i, d)
}

/// Some cell is empty, or two cells that share a side hold equal values.
pub open spec fn can_move_spec(g: Seq<Tile>) -> bool {
    exists|i: int|
        0 <= i < NCELLS as int && (g[i].value == 0 || exists|j: int|
            adjacent(i, j) && #[trigger] g[j].value == g[i].value)
}

pub proof fn lemma_front(i: int, d: Direction)
    requires
        0 <= i < NCELLS as int,
    ensures
        front(i, d) == -1 || (0 <= front(i, d) < NCELLS as int && rank(front(i, d), d) < rank(
            i,
            d,
        )),
{
    lemma_line(i, d);
    if pos_of(i, d) > 0 {
        lemma_at(d, line_of(i, d), pos_of(i, d) - 1);
    }
}

pub proof fn lemma_front_injective(i: int, k: int, d: Direction)
    requires
        0 <= i < NCELLS as int,
        0 <= k < NCELLS as int,
        front(i, d) == front(k, d),
        front(i, d) >= 0,
    ensures
        i == k,
{
}

pub proof fn lemma_total_push(s: Seq<usize>, v: usize)
    ensures
        total(s.push(v)) == total(s) + v,
{
    assert(s.push(v).drop_last() == s);
}

pub proof fn lemma_sum_update(g: Seq<Tile>, i: int, t: Tile)
    requires
        0 <= i < g.len(),
    ensures
        grid_sum(g.update(i, t)) == grid_sum(g) - g[i].value + t.value,
    decreases g.len(),
{
    if i < g.len() - 1 {
        assert(g.update(i, t).drop_last() == g.drop_last().update(i, t));
        lemma_sum_update(g.drop_last(), i, t);
    } else {
        assert(g.update(i, t).drop_last() == g.drop_last());
    }
}

pub proof fn lemma_two_le_sum(g: Seq<Tile>, i: int, j: int)
    requires
        0 <= i < g.len(),
        0 <= j < g.len(),
        i != j,
    ensures
        g[i].value + g[j].value <= grid_sum(g),
    decreases g.len(),
{
    lemma_sum_nonneg(g.drop_last());
    if i < g.len() - 1 && j < g.len() - 1 {
        lemma_two_le_sum(g.drop_last(), i, j);
    } else if i < g.len() - 1 {
        lemma_one_le_sum(g.drop_last(), i);
    } else {
        lemma_one_le_sum(g.drop_last(), j);
    }
}

pub proof fn lemma_one_le_sum(g: Seq<Tile>, i: int)
    requires
        0 <= i < g.len(),
    ensures
        g[i].value <= grid_sum(g),
    decreases g.len(),
{
    lemma_sum_nonneg(g.drop_last());
    if i < g.len() - 1 {
        lemma_one_le_sum(g.drop_last(), i);
    }
}

pub proof fn lemma_sum_nonneg(g: Seq<Tile>)
    ensures
        grid_sum(g) >= 0,
    decreases g.len(),
{
    if g.len() > 0 {
        lemma_sum_nonneg(g.drop_last());
    }
}


/// Adds the next tile of a line, of value `v`, to the packed tiles `acc`
/// (values with merge marks): an empty cell adds nothing; a tile equal to
/// the last one, when that one was not made by a merge, merges into it;
/// any other tile is packed behind it.
pub open spec fn push_tile(acc: Seq<(int, bool)>, v: int) -> Seq<(int, bool)> {
    if v == 0 {
        acc
    } else if acc.len() > 0 && acc.last().0 == v && !acc.last().1 {
        acc.drop_last().push((2 * v, true))
    } else {
        acc.push((v, false))
    }
}

/// The tiles of a line once pushed to its edge, place 0 first: the values
/// `s`, taken from the edge outward, packed and merged by `push_tile`.
pub open spec fn slide_line(s: Seq<int>) -> Seq<(int, bool)>
    decreases s.len(),
{
    if s.len() == 0 {
        seq![]
    } else {
        push_tile(slide_line(s.drop_last()), s.last())
    }
}

/// The values of the packed tiles that a merge made, in order.
pub open spec fn merged(acc: Seq<(int, bool)>) -> Seq<int>
    decreases acc.len(),
{
    if acc.len() == 0 {
        seq![]
    } else if acc.last().1 {
        merged(acc.drop_last()).push(acc.last().0)
    } else {
        merged(acc.drop_last())
    }
}

/// The merge results of a sweep in direction `d` over its first `n` lines,
/// line after line.
pub open spec fn merges_upto(g: Seq<Tile>, d: Direction, n: int) -> Seq<int>
    decreases n,
{
    if n <= 0 {
        seq![]
    } else {
        merges_upto(g, d, n - 1) + merged(slide_line(line_values(g, d, n - 1, line_len(d))))
    }
}

/// The merge results of a whole sweep in direction `d`, in the order the
/// sweep makes them.
pub open spec fn sweep_merges(g: Seq<Tile>, d: Direction) -> Seq<int> {
    merges_upto(g, d, line_count(d))
}

pub open spec fn as_ints(s: Seq<usize>) -> Seq<int> {
    s.map_values(|x: usize| x as int)
}

/// Adding a tile to a line adds its merge result, if it merges.
pub proof fn lemma_merged_push(acc: Seq<(int, bool)>, v: int)
    ensures
        merged(push_tile(acc, v)) == (if v != 0 && acc.len() > 0 && acc.last() == (v, false) {
            merged(acc).push(2 * v)
        } else {
            merged(acc)
        }),
{
    if v != 0 {
        if acc.len() > 0 && acc.last() == (v, false) {
            let r = acc.drop_last().push((2 * v, true));
            assert(r.drop_last() == acc.drop_last());
        } else {
            assert(acc.push((v, false)).drop_last() == acc);
        }
    }
}

/// The values at places `0..n` of line `l` in a sweep in direction `d`.
pub open spec fn line_values(g: Seq<Tile>, d: Direction, l: int, n: int) -> Seq<int> {
    Seq::new(n as nat, |p: int| g[at(d, l, p)].value as int)
}

/// Place `p` of line `l` holds what the packed tiles `acc` put there: a
/// tile with its merge mark, or past their end an empty unmarked cell.
pub open spec fn place_holds(g: Seq<Tile>, d: Direction, l: int, acc: Seq<(int, bool)>, p: int) -> bool {
    &&& g[at(d, l, p)].value == (if p < acc.len() {
        acc[p].0
    } else {
        0
    })
    &&& g[at(d, l, p)].merge_blocked == (p < acc.len() && acc[p].1)
}

/// Places `0..n` of line `l` hold the packed tiles `acc`.
pub open spec fn line_holds(g: Seq<Tile>, d: Direction, l: int, acc: Seq<(int, bool)>, n: int) -> bool {
    forall|p: int| 0 <= p < n ==> #[trigger] place_holds(g, d, l, acc, p)
}

/// Places `0..n` of line `l` hold the values of the packed tiles `acc`,
/// whatever their merge marks.
pub open spec fn line_values_hold(g: Seq<Tile>, d: Direction, l: int, acc: Seq<(int, bool)>, n: int) -> bool {
    forall|p: int|
        0 <= p < n ==> (#[trigger] g[at(d, l, p)]).value == (if p < acc.len() {
            acc[p].0
        } else {
            0
        })
}

/// Places `0..n` but `q` of line `l` hold the packed tiles `acc`.
pub open spec fn line_holds_except(
    g: Seq<Tile>,
    d: Direction,
    l: int,
    acc: Seq<(int, bool)>,
    n: int,
    q: int,
) -> bool {
    forall|p: int| 0 <= p < n && p != q ==> #[trigger] place_holds(g, d, l, acc, p)
}

/// How many places of line `l` a sweep in direction `d` has gone through
/// once it has gone through `k` cells.
pub open spec fn done(d: Direction, l: int, k: int) -> int {
    if k - l * line_len(d) < 0 {
        0
    } else if k - l * line_len(d) > line_len(d) {
        line_len(d)
    } else {
        k - l * line_len(d)
    }
}

pub proof fn lemma_slide_line(s: Seq<int>)
    requires
        forall|q: int| 0 <= q < s.len() ==> #[trigger] s[q] >= 0,
    ensures
        slide_line(s).len() <= s.len(),
        forall|q: int| 0 <= q < slide_line(s).len() ==> #[trigger] slide_line(s)[q].0 > 0,
    decreases s.len(),
{
    if s.len() > 0 {
        let t = s.drop_last();
        assert forall|q: int| 0 <= q < t.len() implies #[trigger] t[q] >= 0 by {
            assert(t[q] == s[q]);
        }
        lemma_slide_line(t);
        let acc = slide_line(t);
        let v = s.last();
        assert(s[s.len() - 1] >= 0);
        if v != 0 && acc.len() > 0 && acc.last().0 == v && !acc.last().1 {
            let r = acc.drop_last().push((2 * v, true));
            assert forall|q: int| 0 <= q < r.len() implies #[trigger] r[q].0 > 0 by {
                if q < r.len() - 1 {
                    assert(r[q] == acc[q]);
                }
            }
        } else if v != 0 {
            let r = acc.push((v, false));
            assert forall|q: int| 0 <= q < r.len() implies #[trigger] r[q].0 > 0 by {
                if q < r.len() - 1 {
                    assert(r[q] == acc[q]);
                }
            }
        }
    }
}

/// A tile at place `q > 0` of line `l` slides into the empty place `q - 1`.
pub proof fn lemma_slide_step(
    g: Seq<Tile>,
    d: Direction,
    l: int,
    acc: Seq<(int, bool)>,
    n: int,
    q: int,
    a: Tile,
    b: Tile,
)
    requires
        g.len() == NCELLS,
        0 <= l < line_count(d),
        0 < q < n <= line_len(d),
        acc.len() <= q,
        forall|r: int| 0 <= r < acc.len() ==> #[trigger] acc[r].0 > 0,
        line_holds_except(g, d, l, acc, n, q),
        g[at(d, l, q - 1)].value == 0,
        a.value == 0,
        !a.merge_blocked,
        b.merge_blocked == g[at(d, l, q - 1)].merge_blocked,
    ensures
        acc.len() <= q - 1,
        !b.merge_blocked,
        line_holds_except(g.update(at(d, l, q), a).update(at(d, l, q - 1), b), d, l, acc, n, q - 1),
{
    assert(place_holds(g, d, l, acc, q - 1));
    let h = g.update(at(d, l, q), a).update(at(d, l, q - 1), b);
    lemma_at(d, l, q);
    lemma_at(d, l, q - 1);
    assert forall|p: int| 0 <= p < n && p != q - 1 implies #[trigger] place_holds(h, d, l, acc, p) by {
        lemma_at(d, l, p);
        if p != q {
            assert(place_holds(g, d, l, acc, p));
        }
    }
}

/// A tile of value `v` at place `q` of line `l` merges into the equal,
/// unmarked tile at place `q - 1`, the last of the packed tiles.
pub proof fn lemma_merge_step(
    g: Seq<Tile>,
    d: Direction,
    l: int,
    acc: Seq<(int, bool)>,
    n: int,
    q: int,
    v: int,
    a: Tile,
    b: Tile,
)
    requires
        g.len() == NCELLS,
        0 <= l < line_count(d),
        0 < q < n <= line_len(d),
        acc.len() <= q,
        forall|r: int| 0 <= r < acc.len() ==> #[trigger] acc[r].0 > 0,
        line_holds_except(g, d, l, acc, n, q),
        g[at(d, l, q - 1)].value == v,
        v > 0,
        !g[at(d, l, q - 1)].merge_blocked,
        a.value == 0,
        !a.merge_blocked,
        b.value == 2 * v,
        b.merge_blocked,
    ensures
        acc.len() == q,
        acc[q - 1] == (v, false),
        line_holds(
            g.update(at(d, l, q), a).update(at(d, l, q - 1), b),
            d,
            l,
            acc.drop_last().push((2 * v, true)),
            n,
        ),
{
    assert(place_holds(g, d, l, acc, q - 1));
    let h = g.update(at(d, l, q), a).update(at(d, l, q - 1), b);
    let r = acc.drop_last().push((2 * v, true));
    lemma_at(d, l, q);
    lemma_at(d, l, q - 1);
    assert forall|p: int| 0 <= p < n implies #[trigger] place_holds(h, d, l, r, p) by {
        lemma_at(d, l, p);
        if p != q && p != q - 1 {
            assert(place_holds(g, d, l, acc, p));
            if p < q - 1 {
                assert(r[p] == acc[p]);
            }
        }
    }
}

/// A tile of value `v` that stops at place `q` right behind the packed
/// tiles `acc` is packed behind them.
pub proof fn lemma_stop_slide(
    g: Seq<Tile>,
    d: Direction,
    l: int,
    acc: Seq<(int, bool)>,
    n: int,
    q: int,
    v: int,
)
    requires
        g.len() == NCELLS,
        0 <= l < line_count(d),
        0 <= q < n <= line_len(d),
        acc.len() == q,
        line_holds_except(g, d, l, acc, n, q),
        g[at(d, l, q)].value == v,
        !g[at(d, l, q)].merge_blocked,
    ensures
        line_holds(g, d, l, acc.push((v, false)), n),
{
    let r = acc.push((v, false));
    assert forall|p: int| 0 <= p < n implies #[trigger] place_holds(g, d, l, r, p) by {
        if p != q {
            assert(place_holds(g, d, l, acc, p));
            if p < q {
                assert(r[p] == acc[p]);
            }
        }
    }
}

/// How far a sweep has gone through each line, after `k` cells.
pub proof fn lemma_done(d: Direction, l: int, k: int)
    requires
        0 <= l,
        0 <= k <= NCELLS,
    ensures
        k == (k / line_len(d)) * line_len(d) + k % line_len(d),
        0 <= k % line_len(d) < line_len(d),
        l < k / line_len(d) ==> done(d, l, k) == line_len(d),
        l == k / line_len(d) ==> done(d, l, k) == k % line_len(d),
        l > k / line_len(d) ==> done(d, l, k) == 0,
        k == NCELLS && l < line_count(d) ==> done(d, l, k) == line_len(d),
        k == NCELLS ==> k / line_len(d) == line_count(d) && k % line_len(d) == 0,
        k < NCELLS ==> 0 <= k / line_len(d) < line_count(d),
{
    let m = line_len(d);
    let q = k / m;
    let r = k % m;
    vstd::arithmetic::div_mod::lemma_fundamental_div_mod(k, m);
    vstd::arithmetic::div_mod::lemma_mod_pos_bound(k, m);
    assert(k == q * m + r) by (nonlinear_arith)
        requires
            k == m * q + r,
    ;
    if l < q {
        assert(k - l * m >= m) by (nonlinear_arith)
            requires
                k == q * m + r,
                0 <= r,
                l < q,
                m > 0,
        ;
    } else if l > q {
        assert(k - l * m < 0) by (nonlinear_arith)
            requires
                k == q * m + r,
                r < m,
                l > q,
                m > 0,
        ;
    } else {
        assert(k - l * m == r);
    }
    if k == NCELLS && l < line_count(d) {
        assert(k == line_count(d) * m) by {
            match d {
                Direction::Left => {},
                Direction::Right => {},
                Direction::Up => {},
                Direction::Down => {},
            }
        }
        assert(k - l * m >= m) by (nonlinear_arith)
            requires
                k == line_count(d) * m,
                l < line_count(d),
                m > 0,
        ;
    }
    if k == NCELLS {
        assert(NCELLS == line_count(d) * m) by {
            match d {
                Direction::Left => {},
                Direction::Right => {},
                Direction::Up => {},
                Direction::Down => {},
            }
        }
        vstd::arithmetic::div_mod::lemma_fundamental_div_mod_converse(k, m, line_count(d), 0);
    }
    if k < NCELLS {
        assert(NCELLS == line_count(d) * m) by {
            match d {
                Direction::Left => {},
                Direction::Right => {},
                Direction::Up => {},
                Direction::Down => {},
            }
        }
        assert(q < line_count(d)) by (nonlinear_arith)
            requires
                k == q * m + r,
                0 <= r,
                k < line_count(d) * m,
                m > 0,
        ;
        assert(q >= 0) by (nonlinear_arith)
            requires
                k == q * m + r,
                r < m,
                k >= 0,
                m > 0,
        ;
    }
}

/// One more cell of a sweep is one more place of the line it lies in.
pub proof fn lemma_done_step(d: Direction, l: int, k: int)
    requires
        0 <= l,
        0 <= k < NCELLS,
    ensures
        k == (k / line_len(d)) * line_len(d) + k % line_len(d),
        0 <= k % line_len(d) < line_len(d),
        0 <= k / line_len(d) < line_count(d),
        l != k / line_len(d) ==> done(d, l, k + 1) == done(d, l, k),
        l == k / line_len(d) ==> done(d, l, k) == k % line_len(d) && done(d, l, k + 1) == k
            % line_len(d) + 1,
        k % line_len(d) + 1 < line_len(d) ==> (k + 1) / line_len(d) == k / line_len(d) && (k + 1)
            % line_len(d) == k % line_len(d) + 1,
        k % line_len(d) + 1 == line_len(d) ==> (k + 1) / line_len(d) == k / line_len(d) + 1 && (k
            + 1) % line_len(d) == 0,
{
    let m = line_len(d);
    let q = k / m;
    let r = k % m;
    lemma_done(d, l, k);
    lemma_done(d, l, k + 1);
    if r + 1 < m {
        vstd::arithmetic::div_mod::lemma_fundamental_div_mod_converse(k + 1, m, q, r + 1);
    } else {
        assert(k + 1 == (q + 1) * m + 0) by (nonlinear_arith)
            requires
                k == q * m + r,
                r + 1 == m,
        ;
        vstd::arithmetic::div_mod::lemma_fundamental_div_mod_converse(k + 1, m, q + 1, 0);
    }
}

/// Grids that agree on values and merge marks agree on what a line holds.
pub proof fn lemma_line_holds_same(
    g: Seq<Tile>,
    h: Seq<Tile>,
    d: Direction,
    l: int,
    acc: Seq<(int, bool)>,
    n: int,
)
    requires
        g.len() == NCELLS,
        h.len() == NCELLS,
        0 <= l < line_count(d),
        n <= line_len(d),
        line_holds(g, d, l, acc, n),
        forall|p: int|
            0 <= p < n ==> (#[trigger] h[at(d, l, p)]).value == g[at(d, l, p)].value
                && h[at(d, l, p)].merge_blocked == g[at(d, l, p)].merge_blocked,
    ensures
        line_holds(h, d, l, acc, n),
{
    assert forall|p: int| 0 <= p < n implies #[trigger] place_holds(h, d, l, acc, p) by {
        assert(place_holds(g, d, l, acc, p));
        assert(h[at(d, l, p)].value == g[at(d, l, p)].value);
    }
}

/// A grid with the values of another keeps what its lines hold in value.
pub proof fn lemma_line_values_same(
    g: Seq<Tile>,
    h: Seq<Tile>,
    d: Direction,
    l: int,
    acc: Seq<(int, bool)>,
    n: int,
)
    requires
        g.len() == NCELLS,
        h.len() == NCELLS,
        0 <= l < line_count(d),
        n <= line_len(d),
        line_holds(g, d, l, acc, n),
        forall|i: int| 0 <= i < NCELLS ==> (#[trigger] h[i]).value == g[i].value,
    ensures
        line_values_hold(h, d, l, acc, n),
{
    assert forall|p: int| 0 <= p < n implies (#[trigger] h[at(d, l, p)]).value == (if p
        < acc.len() {
        acc[p].0
    } else {
        0
    }) by {
        assert(place_holds(g, d, l, acc, p));
        lemma_at(d, l, p);
    }
}

/// The cell at place `k` of a sweep in direction `d`.
pub fn sweep_cell(d: Direction, k: usize) -> (r: usize)
    requires
        k < NCELLS,
    ensures
        r < NCELLS,
        rank(r as int, d) == k,
        r as int == at(d, k as int / line_len(d), k as int % line_len(d)),
{
    proof {
        lemma_at(d, k as int / line_len(d), k as int % line_len(d));
        assert(k as int == (k as int / line_len(d)) * line_len(d) + k as int % line_len(d)) by (nonlinear_arith)
            requires line_len(d) > 0;
    }
    match d {
        Direction::Left => (k % NCOLS) * NROWS + k / NCOLS,
        Direction::Right => (NCOLS - 1 - k % NCOLS) * NROWS + k / NCOLS,
        Direction::Up => (k / NROWS) * NROWS + k % NROWS,
        Direction::Down => (k / NROWS) * NROWS + (NROWS - 1 - k % NROWS),
    }
}

/// The cell that a tile in cell `i` advances into, if it is not at the edge.
pub fn front_cell(i: usize, d: Direction) -> (r: Option<usize>)
    requires
        i < NCELLS,
    ensures
        match r {
            Some(j) => front(i as int, d) == j as int && j < NCELLS,
            None => front(i as int, d) == -1,
        },
{
    let (dx, dy) = d.offset();
    let x: i32 = (i / NROWS) as i32 + dx;
    let y: i32 = (i % NROWS) as i32 + dy;
    if 0 <= x && x < NCOLS as i32 && 0 <= y && y < NROWS as i32 {
        Some(x as usize * NROWS + y as usize)
    } else {
        None
    }
}

} // verus!
