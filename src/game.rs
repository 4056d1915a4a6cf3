//! The game: the grid, the score and the state, the move and merge rules,
//! and the tiles whose animation has not ended yet.
use vstd::prelude::*;
use crate::grid::{
    NCELLS, NCOLS, NROWS, adjacent, can_move_spec, can_slide, cell, front, front_cell, grid_sum, in_grid,
    lemma_front, lemma_front_injective, lemma_line, lemma_rank_injective, at, line_of, pos_of,
    line_count, line_len, line_holds, line_holds_except, place_holds, push_tile, lemma_at,
    lemma_merge_step, lemma_slide_step, lemma_stop_slide, slide_line, line_values, done,
    lemma_slide_line, lemma_done, lemma_done_step, lemma_line_holds_same, line_values_hold, lemma_line_values_same, merged, merges_upto, sweep_merges, as_ints,
    lemma_merged_push, lemma_sum_nonneg, sweep_cell, lemma_sum_update, lemma_total_push, lemma_two_le_sum, rank,
    settled, total,
};
use crate::animation::{animation_due, animation_is_due};
use crate::tile::{Direction, Key, Tile, key_direction};

verus! {

/// The value whose making by a merge wins the game.
pub const WINNING_VALUE: usize = 2048;

/// How long to wait for a key, in milliseconds, while an animation runs.
pub const POLL_MS: u64 = 10;

#[derive(Clone, Copy, PartialEq, Eq, Structural, Debug)]
pub enum State {
    Playing,
    Won,
    Lost,
}

/// A cell given by its column `x` and row `y`.
#[derive(Clone, Copy, PartialEq, Eq, Structural, Debug)]
pub struct Point {
    pub x: usize,
    pub y: usize,
}

/// A tile that slid from `pold` to `pnew` in the latest move.
#[derive(Clone, Copy)]
pub struct Movement {
    /// The tile as it stood before the move.
    pub tile: Tile,
    pub pold: Point,
    pub pnew: Point,
}

/// A new tile whose value enters the grid when its animation ends.
#[derive(Clone, Copy, PartialEq, Eq, Structural, Debug)]
pub struct Appearing {
    pub position: Point,
    pub value: usize,
}

pub open spec fn point_cell(p: Point) -> int {
    cell(p.x as int, p.y as int)
}

pub open spec fn point_in_grid(p: Point) -> bool {
    in_grid(p.x as int, p.y as int)
}

pub struct Game {
    /// The tiles, cell `x * NROWS + y` for column `x` and row `y`.
    pub grid: Vec<Tile>,
    pub state: State,
    pub score: usize,
    /// Whether a tile moved since this flag was last cleared.
    pub moved: bool,
    /// The tiles that slid in the latest move, with where they came from.
    pub tiles_moving: Vec<Movement>,
    /// The tiles that appeared after the latest move.
    pub points_appearing: Vec<Appearing>,
}

impl Game {
    pub open spec fn wf(&self) -> bool {
        &&& self.grid@.len() == NCELLS
        &&& forall|k: int|
            0 <= k < self.tiles_moving@.len() ==> point_in_grid(
                (#[trigger] self.tiles_moving@[k]).pold,
            ) && point_in_grid(self.tiles_moving@[k].pnew)
        &&& forall|k: int|
            0 <= k < self.points_appearing@.len() ==> point_in_grid(
                (#[trigger] self.points_appearing@[k]).position,
            )
    }

    /// Adds a merge result to the score; making the winning value wins.
    pub fn add_score(&mut self, score: usize)
        requires
            old(self).score + score <= usize::MAX,
        ensures
            final(self).score == old(self).score + score,
            final(self).state == (if score == WINNING_VALUE {
                State::Won
            } else {
                old(self).state
            }),
            final(self).grid == old(self).grid,
            final(self).moved == old(self).moved,
            final(self).tiles_moving == old(self).tiles_moving,
            final(self).points_appearing == old(self).points_appearing,
    {
        self.score = self.score + score;
        if score == WINNING_VALUE {
            self.state = State::Won;
        }
    }

    /// Pushes the tile in column `x`, row `y` one cell at a time in
    /// direction `d`: into an empty cell, or into a tile of equal value when
    /// neither was made by a merge in this sweep. Returns where it stopped;
    /// the merge result, if any, is appended to `merges`.
    #[verifier::rlimit(100)]
    #[verifier::spinoff_prover]
    fn move_direction(
        &mut self,
        x: usize,
        y: usize,
        d: Direction,
        merges: &mut Vec<usize>,
        acc: Ghost<Seq<(int, bool)>>,
    ) -> (r: (usize, usize))
        requires
            old(self).wf(),
            acc@.len() <= pos_of(cell(x as int, y as int), d),
            forall|q: int| 0 <= q < acc@.len() ==> #[trigger] acc@[q].0 > 0,
            line_holds(
                old(self).grid@,
                d,
                line_of(cell(x as int, y as int), d),
                acc@,
                pos_of(cell(x as int, y as int), d),
            ),
            !old(self).grid@[cell(x as int, y as int)].merge_blocked,
            x < NCOLS,
            y < NROWS,
            old(self).grid@[cell(x as int, y as int)].value != 0,
            forall|i: int|
                0 <= i < NCELLS && rank(i, d) < rank(cell(x as int, y as int), d) ==> settled(
                    old(self).grid@,
                    i,
                    d,
                ),
            old(self).score + grid_sum(old(self).grid@) <= usize::MAX,
        ensures
            final(self).wf(),
            r.0 < NCOLS,
            r.1 < NROWS,
            rank(cell(r.0 as int, r.1 as int), d) <= rank(cell(x as int, y as int), d),
            final(self).grid@[cell(r.0 as int, r.1 as int)].value != 0,
            forall|i: int|
                0 <= i < NCELLS && rank(i, d) <= rank(cell(x as int, y as int), d) ==> settled(
                    final(self).grid@,
                    i,
                    d,
                ),
            grid_sum(final(self).grid@) == grid_sum(old(self).grid@),
            final(self).score <= old(self).score + grid_sum(old(self).grid@),
            final(self).score == old(self).score + total(final(merges)@) - total(old(merges)@),
            old(merges)@.len() <= final(merges)@.len() <= old(merges)@.len() + 1,
            final(merges)@.subrange(0, old(merges)@.len() as int) == old(merges)@,
            final(self).state == (if final(merges)@.len() > old(merges)@.len()
                && final(merges)@.last() == WINNING_VALUE {
                State::Won
            } else {
                old(self).state
            }),
            final(self).moved == (old(self).moved || r != (x, y)),
            r == (x, y) ==> final(self).grid == old(self).grid && final(merges)@ == old(merges)@,
            !can_move_spec(old(self).grid@) ==> r == (x, y),
            (r == (x, y)) == settled(old(self).grid@, cell(x as int, y as int), d),
            line_holds(
                final(self).grid@,
                d,
                line_of(cell(x as int, y as int), d),
                push_tile(acc@, old(self).grid@[cell(x as int, y as int)].value as int),
                pos_of(cell(x as int, y as int), d) + 1,
            ),
            forall|j: int|
                0 <= j < NCELLS && !(line_of(j, d) == line_of(cell(x as int, y as int), d) && pos_of(
                    j,
                    d,
                ) <= pos_of(cell(x as int, y as int), d)) ==> #[trigger] final(self).grid@[j]
                    == old(self).grid@[j],
            cell(r.0 as int, r.1 as int) == at(
                d,
                line_of(cell(x as int, y as int), d),
                push_tile(acc@, old(self).grid@[cell(x as int, y as int)].value as int).len() - 1,
            ),
            (final(merges)@.len() > old(merges)@.len()) == (acc@.len() > 0 && acc@.last() == (
                old(self).grid@[cell(x as int, y as int)].value as int,
                false,
            )),
            final(merges)@.len() > old(merges)@.len() ==> final(merges)@.last() == 2 * old(
                self,
            ).grid@[cell(x as int, y as int)].value && final(self).grid@[cell(
                r.0 as int,
                r.1 as int,
            )].value == final(merges)@.last() && final(self).score == old(self).score
                + final(merges)@.last(),
            final(merges)@.len() == old(merges)@.len() ==> final(self).score == old(self).score,
            final(self).tiles_moving == old(self).tiles_moving,
            final(self).points_appearing == old(self).points_appearing,
    {
        let ghost start = cell(x as int, y as int);
        let ghost s = grid_sum(old(self).grid@);
        let ghost l = line_of(start, d);
        let ghost top = pos_of(start, d);
        let ghost v = old(self).grid@[start].value as int;
        let ghost merged_line = acc@.drop_last().push((2 * v, true));
        let mut c: usize = x * NROWS + y;
        proof {
            lemma_sum_nonneg(old(self).grid@);
            lemma_line(start, d);
            assert forall|i: int| 0 <= i < NCELLS && rank(i, d) <= rank(start, d) && i != start
                implies settled(old(self).grid@, i, d) by {
                if rank(i, d) == rank(start, d) {
                    lemma_rank_injective(i, start, d);
                }
            }
            assert forall|i: int| 0 <= i < NCELLS && front(i, d) == start implies rank(i, d) > rank(start, d) by {
                lemma_front(i, d);
            }
        }
        loop
            invariant
                self.wf(),
                c < NCELLS,
                rank(c as int, d) <= rank(start, d),
                self.grid@[c as int].value != 0,
                forall|i: int|
                    0 <= i < NCELLS && rank(i, d) <= rank(start, d) && i != c ==> settled(
                        self.grid@,
                        i,
                        d,
                    ),
                forall|i: int|
                    0 <= i < NCELLS && front(i, d) == c && rank(i, d) <= rank(start, d)
                        ==> #[trigger] self.grid@[i].value == 0,
                grid_sum(self.grid@) == s,
                self.score <= old(self).score + s,
                self.score == old(self).score + total(merges@) - total(old(merges)@),
                old(merges)@.len() <= merges@.len() <= old(merges)@.len() + 1,
                merges@.len() > old(merges)@.len() ==> self.grid@[c as int].merge_blocked
                    && merges@.last() <= s && (front(c as int, d) == -1 || self.grid@[front(
                    c as int,
                    d,
                )].value != 0),
                merges@.subrange(0, old(merges)@.len() as int) == old(merges)@,
                self.state == (if merges@.len() > old(merges)@.len() && merges@.last()
                    == WINNING_VALUE {
                    State::Won
                } else {
                    old(self).state
                }),
                self.moved == (old(self).moved || c != start),
                c == start ==> self.grid == old(self).grid && merges@ == old(merges)@,
                !can_move_spec(old(self).grid@) ==> c == start,
                settled(old(self).grid@, start, d) ==> c == start,
                self.tiles_moving == old(self).tiles_moving,
                self.points_appearing == old(self).points_appearing,
                old(self).score + s <= usize::MAX,
                0 <= l < line_count(d),
                0 <= top < line_len(d),
                v > 0,
                v == old(self).grid@[start].value,
                l == line_of(start, d),
                top == pos_of(start, d),
                merged_line == acc@.drop_last().push((2 * v, true)),
                forall|q: int| 0 <= q < acc@.len() ==> #[trigger] acc@[q].0 > 0,
                line_of(c as int, d) == l,
                pos_of(c as int, d) <= top,
                at(d, l, pos_of(c as int, d)) == c,
                forall|j: int|
                    0 <= j < NCELLS && !(line_of(j, d) == l && pos_of(j, d) <= top)
                        ==> #[trigger] self.grid@[j] == old(self).grid@[j],
                merges@.len() == old(merges)@.len() ==> acc@.len() <= pos_of(c as int, d)
                    && self.grid@[c as int].value == v && !self.grid@[c as int].merge_blocked
                    && line_holds_except(self.grid@, d, l, acc@, top + 1, pos_of(c as int, d)),
                merges@.len() > old(merges)@.len() ==> merges@.last() == 2 * v && self.grid@[c as int].value == 2 * v
                    && self.score == old(self).score + 2 * v,
                merges@.len() == old(merges)@.len() ==> self.score == old(self).score,
                merges@.len() > old(merges)@.len() ==> acc@.len() >= 1 && pos_of(c as int, d)
                    == acc@.len() - 1 && acc@[acc@.len() - 1] == (v, false) && line_holds(
                    self.grid@,
                    d,
                    l,
                    merged_line,
                    top + 1,
                ),
            ensures
                settled(self.grid@, c as int, d),
                line_holds(self.grid@, d, l, push_tile(acc@, v), top + 1),
                at(d, l, push_tile(acc@, v).len() - 1) == c,
                (merges@.len() > old(merges)@.len()) == (acc@.len() > 0 && acc@.last() == (v, false)),
            decreases rank(c as int, d),
        {
            let ghost q = pos_of(c as int, d);
            proof {
                lemma_front(c as int, d);
                lemma_line(c as int, d);
                if merges@.len() > old(merges)@.len() {
                    assert(acc@.last() == acc@[acc@.len() - 1]);
                    assert(push_tile(acc@, v) == merged_line);
                }
            }
            let n = match front_cell(c, d) {
                None => {
                    proof {
                        if merges@.len() == old(merges)@.len() {
                            lemma_stop_slide(self.grid@, d, l, acc@, top + 1, q, v);
                        }
                        if acc@.len() > 0 {
                            assert(acc@.last() == acc@[acc@.len() - 1]);
                        }
                    }
                    break ;
                },
                Some(n) => n,
            };
            proof {
                lemma_line(n as int, d);
                lemma_at(d, l, q - 1);
            }
            let tc = self.grid[c];
            let tn = self.grid[n];
            let ghost g = self.grid@;
            if !tn.is_empty() && tn == tc && !tc.is_blocked() && !tn.is_blocked() {
                proof {
                    lemma_front(n as int, d);
                    assert(settled(g, n as int, d));
                    lemma_two_le_sum(g, c as int, n as int);
                    assert(merges@ == merges@.subrange(0, old(merges)@.len() as int));
                }
                let val = tn.value;
                let doubled: usize = val * 2;
                let mut emptied = tc;
                emptied.set(0);
                self.grid.set(c, emptied);
                let mut merged = tn;
                merged.set(doubled);
                merged.blocked(true);
                self.grid.set(n, merged);
                self.add_score(doubled);
                proof {
                    lemma_sum_update(g, c as int, emptied);
                    lemma_sum_update(g.update(c as int, emptied), n as int, merged);
                    lemma_total_push(merges@, doubled);
                    assert(merges@.push(doubled).subrange(0, old(merges)@.len() as int)
                        == merges@.subrange(0, old(merges)@.len() as int));
                }
                merges.push(doubled);
                self.moved = true;
                proof {
                    lemma_advance(g, c as int, n as int, self.grid@[c as int], self.grid@[n as int], rank(start, d), d);
                    lemma_merge_step(g, d, l, acc@, top + 1, q, v, emptied, merged);
                }
                c = n;
            } else if tn.is_empty() {
                let val = tc.value;
                let mut emptied = tc;
                emptied.set(0);
                self.grid.set(c, emptied);
                let mut filled = tn;
                filled.set(val);
                self.grid.set(n, filled);
                proof {
                    lemma_sum_update(g, c as int, emptied);
                    lemma_sum_update(g.update(c as int, emptied), n as int, filled);
                }
                self.moved = true;
                proof {
                    lemma_advance(g, c as int, n as int, self.grid@[c as int], self.grid@[n as int], rank(start, d), d);
                    lemma_slide_step(g, d, l, acc@, top + 1, q, emptied, filled);
                }
                c = n;
            } else {
                assert(settled(g, c as int, d));
                proof {
                    if merges@.len() == old(merges)@.len() {
                        assert(place_holds(g, d, l, acc@, q - 1));
                        lemma_stop_slide(g, d, l, acc@, top + 1, q, v);
                        assert(acc@.last() == acc@[acc@.len() - 1]);
                    }
                }
                break ;
            }
        }
        (c / NROWS, c % NROWS)
    }

    /// Pushes every tile in direction `direc`, line by line and in each line
    /// the tiles nearest the edge that they are pushed to first, so that a
    /// tile can slide across several cells. Each line ends up packed against
    /// that edge, two equal tiles merged where neither was made by a merge in
    /// this sweep (`slide_line`). Returns the merge results in the order
    /// they were made.
    #[verifier::rlimit(100)]
    #[verifier::spinoff_prover]
    pub fn move_all(&mut self, direc: Direction) -> (r: Vec<usize>)
        requires
            old(self).wf(),
            forall|i: int| 0 <= i < NCELLS ==> !(#[trigger] old(self).grid@[i]).merge_blocked,
            old(self).score + NCELLS * grid_sum(old(self).grid@) <= usize::MAX,
        ensures
            final(self).wf(),
            forall|l: int|
                0 <= l < line_count(direc) ==> #[trigger] line_holds(
                    final(self).grid@,
                    direc,
                    l,
                    slide_line(line_values(old(self).grid@, direc, l, line_len(direc))),
                    line_len(direc),
                ),
            forall|i: int| 0 <= i < NCELLS ==> settled(final(self).grid@, i, direc),
            as_ints(r@) == sweep_merges(old(self).grid@, direc),
            grid_sum(final(self).grid@) == grid_sum(old(self).grid@),
            final(self).score == old(self).score + total(r@),
            final(self).state == (if r@.contains(WINNING_VALUE) {
                State::Won
            } else {
                old(self).state
            }),
            final(self).moved == (old(self).moved || final(self).tiles_moving@.len() > old(self).tiles_moving@.len()),
            old(self).tiles_moving@.len() <= final(self).tiles_moving@.len(),
            final(self).tiles_moving@.subrange(0, old(self).tiles_moving@.len() as int) == old(self).tiles_moving@,
            forall|k: int|
                old(self).tiles_moving@.len() <= k < final(self).tiles_moving@.len()
                    ==> #[trigger] final(self).tiles_moving@[k].pold != final(self).tiles_moving@[k].pnew,
            final(self).tiles_moving@.len() == old(self).tiles_moving@.len() ==> final(self).grid
                == old(self).grid && r@.len() == 0,
            !can_move_spec(old(self).grid@) ==> final(self).tiles_moving@.len() == old(self).tiles_moving@.len(),
            (final(self).tiles_moving@.len() > old(self).tiles_moving@.len()) == can_slide(
                old(self).grid@,
                direc,
            ),
            final(self).points_appearing == old(self).points_appearing,
    {
        let ghost s = grid_sum(old(self).grid@);
        let ghost n0 = old(self).tiles_moving@.len();
        let mut merges: Vec<usize> = Vec::new();
        let mut k: usize = 0;
        proof {
            lemma_sum_nonneg(old(self).grid@);
            assert forall|i: int| 0 <= i < NCELLS implies rank(i, direc) >= 0 by {
                lemma_line(i, direc);
            }
            assert forall|l: int| 0 <= l < line_count(direc) implies #[trigger] line_holds(
                self.grid@,
                direc,
                l,
                slide_line(line_values(old(self).grid@, direc, l, done(direc, l, 0))),
                done(direc, l, 0),
            ) by {
                lemma_done(direc, l, 0);
            }
            lemma_done(direc, 0, 0);
            assert(line_values(old(self).grid@, direc, 0, 0) =~= Seq::<int>::empty());
            assert(slide_line(line_values(old(self).grid@, direc, 0, 0)) =~= Seq::<(int, bool)>::empty());
            assert(merged(Seq::<(int, bool)>::empty()) =~= Seq::<int>::empty());
            assert(as_ints(merges@) =~= Seq::<int>::empty());
            assert(merges_upto(old(self).grid@, direc, 0) =~= Seq::<int>::empty());
        }
        while k < NCELLS
            invariant
                self.wf(),
                k <= NCELLS,
                forall|i: int| 0 <= i < NCELLS && rank(i, direc) < k ==> settled(self.grid@, i, direc),
                grid_sum(self.grid@) == s,
                s >= 0,
                self.score == old(self).score + total(merges@),
                self.score + (NCELLS - k) * s <= usize::MAX,
                self.state == (if merges@.contains(WINNING_VALUE) {
                    State::Won
                } else {
                    old(self).state
                }),
                self.moved == (old(self).moved || self.tiles_moving@.len() > n0),
                n0 <= self.tiles_moving@.len(),
                self.tiles_moving@.subrange(0, n0 as int) == old(self).tiles_moving@,
                forall|j: int|
                    n0 <= j < self.tiles_moving@.len() ==> #[trigger] self.tiles_moving@[j].pold
                        != self.tiles_moving@[j].pnew,
                self.tiles_moving@.len() == n0 ==> self.grid == old(self).grid && merges@.len()
                    == 0,
                !can_move_spec(old(self).grid@) ==> self.tiles_moving@.len() == n0,
                (self.tiles_moving@.len() == n0) == (forall|i: int|
                    0 <= i < NCELLS && rank(i, direc) < k ==> settled(old(self).grid@, i, direc)),
                self.points_appearing == old(self).points_appearing,
                forall|j: int| 0 <= j < NCELLS ==> !(#[trigger] old(self).grid@[j]).merge_blocked,
                old(self).grid@.len() == NCELLS,
                as_ints(merges@) == merges_upto(old(self).grid@, direc, k as int / line_len(direc))
                    + merged(
                    slide_line(
                        line_values(
                            old(self).grid@,
                            direc,
                            k as int / line_len(direc),
                            k as int % line_len(direc),
                        ),
                    ),
                ),
                forall|j: int|
                    0 <= j < NCELLS && rank(j, direc) >= k ==> #[trigger] self.grid@[j] == old(
                        self,
                    ).grid@[j],
                forall|l: int|
                    0 <= l < line_count(direc) ==> #[trigger] line_holds(
                        self.grid@,
                        direc,
                        l,
                        slide_line(line_values(old(self).grid@, direc, l, done(direc, l, k as int))),
                        done(direc, l, k as int),
                    ),
            decreases NCELLS - k,
        {
            let i: usize = sweep_cell(direc, k);
            let ghost lk = k as int / line_len(direc);
            let ghost pk = k as int % line_len(direc);
            let ghost acc = slide_line(line_values(old(self).grid@, direc, lk, pk));
            let ghost g0 = self.grid@;
            proof {
                assert forall|j: int| 0 <= j < NCELLS && rank(j, direc) == k implies j == i by {
                    lemma_rank_injective(j, i as int, direc);
                }
                lemma_done_step(direc, lk, k as int);
                lemma_done(direc, lk, k as int);
                lemma_at(direc, lk, pk);
                assert(line_holds(
                    g0,
                    direc,
                    lk,
                    slide_line(line_values(old(self).grid@, direc, lk, done(direc, lk, k as int))),
                    done(direc, lk, k as int),
                ));
                assert(g0[i as int] == old(self).grid@[i as int]);
                let vals = line_values(old(self).grid@, direc, lk, pk);
                assert forall|q: int| 0 <= q < vals.len() implies #[trigger] vals[q] >= 0 by {}
                lemma_slide_line(vals);
                let vals1 = line_values(old(self).grid@, direc, lk, pk + 1);
                assert(vals1.drop_last() == vals);
                assert(slide_line(vals1) == push_tile(acc, old(self).grid@[i as int].value as int));
            }
            proof {
                lemma_budget(k as int, s);
            }
            if !self.grid[i].is_empty() {
                let tile = self.grid[i];
                let x = i / NROWS;
                let y = i % NROWS;
                let ghost before = merges@;
                let ghost state_before = self.state;
                proof {
                    assert(cell(x as int, y as int) == i);
                }
                let (inew, jnew) = self.move_direction(x, y, direc, &mut merges, Ghost(acc));
                let ghost g1 = self.grid@;
                assert(as_ints(merges@) == merges_upto(old(self).grid@, direc, (k as int + 1) / line_len(direc))
                    + merged(
                    slide_line(
                        line_values(
                            old(self).grid@,
                            direc,
                            (k as int + 1) / line_len(direc),
                            (k as int + 1) % line_len(direc),
                        ),
                    ),
                )) by {
                    let v = old(self).grid@[i as int].value as int;
                    let m0 = merges_upto(old(self).grid@, direc, lk);
                    lemma_merged_push(acc, v);
                    if merges@.len() > before.len() {
                        assert(merges@ == before.push(merges@.last()));
                        assert(as_ints(merges@) =~= as_ints(before).push(2 * v));
                        assert(m0 + merged(acc).push(2 * v) =~= (m0 + merged(acc)).push(2 * v));
                    } else {
                        assert(merges@ =~= before);
                    }
                    lemma_sweep_merges_step(old(self).grid@, direc, k as int, as_ints(merges@));
                }
                assert(total(merges@) == total(before) + (if merges@.len() > before.len() { merges@.last() as int } else { 0 })
                    && (merges@.contains(WINNING_VALUE) == (before.contains(WINNING_VALUE) || (merges@.len() > before.len() && merges@.last() == WINNING_VALUE)))) by {
                    if merges@.len() > before.len() {
                        assert(merges@ == before.push(merges@.last()));
                        lemma_total_push(before, merges@.last());
                        assert(merges@.contains(merges@.last()));
                        assert(forall|v: usize| before.contains(v) ==> merges@.contains(v));
                        assert(forall|v: usize| #[trigger] merges@.contains(v) && v != merges@.last() ==> before.contains(v)) by {
                            assert forall|v: usize| #[trigger] merges@.contains(v) && v != merges@.last() implies before.contains(v) by {
                                let j = choose|j: int| 0 <= j < merges@.len() && merges@[j] == v;
                                assert(before[j] == v);
                            }
                        }
                    } else {
                        assert(merges@ == before);
                    }
                }
                if inew != x || jnew != y {
                    let dest = inew * NROWS + jnew;
                    let ghost g = self.grid@;
                    let mut t = self.grid[dest];
                    t.set_pending(true);
                    self.grid.set(dest, t);
                    proof {
                        lemma_sum_update(g, dest as int, t);
                        assert forall|c: int| 0 <= c < NCELLS && rank(c, direc) <= k implies settled(self.grid@, c, direc) by {
                            assert(settled(g, c, direc));
                        }
                    }
                    let ghost len = self.tiles_moving@.len();
                    self.tiles_moving.push(
                        Movement { tile: tile, pold: Point { x: x, y: y }, pnew: Point { x: inew, y: jnew } },
                    );
                    proof {
                        assert(self.tiles_moving@.subrange(0, n0 as int) == old(self).tiles_moving@.subrange(0, n0 as int)) by {
                            assert(self.tiles_moving@.subrange(0, n0 as int) =~= self.tiles_moving@.subrange(0, len as int).subrange(0, n0 as int));
                        }
                    }
                }
                proof {
                    let v = old(self).grid@[i as int].value as int;
                    lemma_done_step(direc, lk, k as int);
                    assert forall|j: int| 0 <= j < NCELLS implies (#[trigger] self.grid@[j]).value
                        == g1[j].value && self.grid@[j].merge_blocked == g1[j].merge_blocked by {}
                    assert forall|j: int| 0 <= j < NCELLS && rank(j, direc) >= k + 1 implies #[trigger] self.grid@[j]
                        == old(self).grid@[j] by {
                        lemma_line(j, direc);
                    }
                    lemma_sweep_lines_step(old(self).grid@, g0, g1, self.grid@, direc, k as int);
                }
            } else {
                proof {
                    lemma_done_step(direc, lk, k as int);
                    assert(push_tile(acc, 0) == acc);
                    lemma_sweep_merges_step(old(self).grid@, direc, k as int, as_ints(merges@));
                    assert forall|p: int| 0 <= p < pk + 1 implies #[trigger] place_holds(self.grid@, direc, lk, acc, p) by {
                        if p < pk {
                            assert(place_holds(g0, direc, lk, acc, p));
                        }
                    }
                    assert forall|l2: int| 0 <= l2 < line_count(direc) implies #[trigger] line_holds(
                        self.grid@,
                        direc,
                        l2,
                        slide_line(line_values(old(self).grid@, direc, l2, done(direc, l2, k + 1))),
                        done(direc, l2, k + 1),
                    ) by {
                        lemma_done_step(direc, l2, k as int);
                    }
                }
            }
            k = k + 1;
        }
        proof {
            assert forall|i: int| 0 <= i < NCELLS implies settled(self.grid@, i, direc) by {
                lemma_line(i, direc);
            }
            assert forall|l: int| 0 <= l < line_count(direc) implies #[trigger] line_holds(
                self.grid@,
                direc,
                l,
                slide_line(line_values(old(self).grid@, direc, l, line_len(direc))),
                line_len(direc),
            ) by {
                lemma_done(direc, l, NCELLS as int);
            }
            lemma_done(direc, 0, NCELLS as int);
            let lc = line_count(direc);
            assert(line_values(old(self).grid@, direc, lc, 0) =~= Seq::<int>::empty());
            assert(slide_line(line_values(old(self).grid@, direc, lc, 0)) =~= Seq::<(int, bool)>::empty());
            assert(merged(Seq::<(int, bool)>::empty()) =~= Seq::<int>::empty());
            assert(sweep_merges(old(self).grid@, direc) =~= sweep_merges(old(self).grid@, direc) + Seq::<int>::empty());
            if can_slide(old(self).grid@, direc) {
                let i = choose|i: int| 0 <= i < NCELLS && !settled(old(self).grid@, i, direc);
                lemma_line(i, direc);
            }
        }
        merges
    }

    /// Whether the tile in column `x`, row `y` lies on the grid and has the
    /// value of `v`.
    fn test_add(&self, x: usize, y: usize, v: Tile) -> (r: bool)
        requires
            self.wf(),
        ensures
            r == (in_grid(x as int, y as int) && self.grid@[cell(x as int, y as int)].value
                == v.value),
    {
        if x >= NCOLS || y >= NROWS {
            return false;
        }
        self.grid[x * NROWS + y] == v
    }

    /// Whether some move can change the grid: a cell is empty, or two cells
    /// that share a side hold equal values.
    pub fn can_move(&self) -> (r: bool)
        requires
            self.wf(),
        ensures
            r == can_move_spec(self.grid@),
    {
        let mut c: usize = 0;
        while c < NCELLS
            invariant
                self.wf(),
                c <= NCELLS,
                forall|i: int|
                    0 <= i < c ==> #[trigger] self.grid@[i].value != 0 && forall|j: int|
                        adjacent(i, j) ==> self.grid@[j].value != self.grid@[i].value,
            decreases NCELLS - c,
        {
            let x = c / NROWS;
            let y = c % NROWS;
            let t = self.grid[c];
            let ghost g = self.grid@;
            let ghost ci = c as int;
            if t.is_empty() {
                return true;
            }
            if self.test_add(x + 1, y, t) {
                proof {
                    assert(adjacent(ci, front(ci, Direction::Right)));
                }
                return true;
            }
            if x > 0 && self.test_add(x - 1, y, t) {
                proof {
                    assert(adjacent(ci, front(ci, Direction::Left)));
                }
                return true;
            }
            if self.test_add(x, y + 1, t) {
                proof {
                    assert(adjacent(ci, front(ci, Direction::Down)));
                }
                return true;
            }
            if y > 0 && self.test_add(x, y - 1, t) {
                proof {
                    assert(adjacent(ci, front(ci, Direction::Up)));
                }
                return true;
            }
            proof {
                assert forall|j: int| adjacent(ci, j) implies g[j].value != g[ci].value by {
                    let d = choose|d: Direction| #[trigger] front(ci, d) == j && j >= 0;
                    match d {
                        Direction::Up => {},
                        Direction::Down => {},
                        Direction::Left => {},
                        Direction::Right => {},
                    }
                }
            }
            c = c + 1;
        }
        proof {
            let g = self.grid@;
            assert forall|i: int| 0 <= i < NCELLS implies !(g[i].value == 0 || exists|j: int|
                adjacent(i, j) && #[trigger] g[j].value == g[i].value) by {
                assert(g[i].value != 0);
            }
        }
        false
    }

    /// Ends the animation of the latest move: moved tiles show their new
    /// values, and the appearing tiles enter the grid.
    pub fn finish_animation(&mut self)
        requires
            old(self).wf(),
        ensures
            final(self).wf(),
            final(self).grid@ == with_appeared(
                without_pending(
                    old(self).grid@,
                    old(self).tiles_moving@,
                    old(self).tiles_moving@.len() as int,
                ),
                old(self).points_appearing@,
                old(self).points_appearing@.len() as int,
            ),
            forall|k: int|
                0 <= k < old(self).tiles_moving@.len() ==> !final(self).grid@[point_cell(
                    (#[trigger] old(self).tiles_moving@[k]).pnew,
                )].pending,
            forall|k: int|
                0 <= k < old(self).points_appearing@.len() && (forall|j: int|
                    k < j < old(self).points_appearing@.len() ==> old(
                        self,
                    ).points_appearing@[j].position != old(self).points_appearing@[k].position)
                    ==> final(self).grid@[point_cell(
                    (#[trigger] old(self).points_appearing@[k]).position,
                )].value == old(self).points_appearing@[k].value,
            final(self).tiles_moving@.len() == 0,
            final(self).points_appearing@.len() == 0,
            final(self).score == old(self).score,
            final(self).state == old(self).state,
            final(self).moved == old(self).moved,
    {
        proof {
            lemma_pending_cleared(old(self).grid@, old(self).tiles_moving@, old(self).tiles_moving@.len() as int);
            let h = without_pending(old(self).grid@, old(self).tiles_moving@, old(self).tiles_moving@.len() as int);
            lemma_without_pending(old(self).grid@, old(self).tiles_moving@, old(self).tiles_moving@.len() as int);
            lemma_appeared_values(h, old(self).points_appearing@, old(self).points_appearing@.len() as int);
        }
        let mut k: usize = 0;
        while k < self.tiles_moving.len()
            invariant
                self.wf(),
                k <= self.tiles_moving@.len(),
                self.grid@ == without_pending(old(self).grid@, self.tiles_moving@, k as int),
                self.tiles_moving == old(self).tiles_moving,
                self.points_appearing == old(self).points_appearing,
                self.score == old(self).score,
                self.state == old(self).state,
                self.moved == old(self).moved,
            decreases self.tiles_moving@.len() - k,
        {
            proof {
                assert(point_in_grid(self.tiles_moving@[k as int].pold));
            }
            let p = self.tiles_moving[k].pnew;
            let c = p.x * NROWS + p.y;
            let mut t = self.grid[c];
            t.set_pending(false);
            self.grid.set(c, t);
            k = k + 1;
        }
        self.tiles_moving = Vec::new();
        let ghost g1 = self.grid@;
        let mut k: usize = 0;
        while k < self.points_appearing.len()
            invariant
                self.wf(),
                k <= self.points_appearing@.len(),
                self.grid@ == with_appeared(g1, self.points_appearing@, k as int),
                self.tiles_moving@.len() == 0,
                self.points_appearing == old(self).points_appearing,
                self.score == old(self).score,
                self.state == old(self).state,
                self.moved == old(self).moved,
            decreases self.points_appearing@.len() - k,
        {
            let a = self.points_appearing[k];
            let c = a.position.x * NROWS + a.position.y;
            let mut t = self.grid[c];
            t.set(a.value);
            self.grid.set(c, t);
            k = k + 1;
        }
        self.points_appearing = Vec::new();
    }

    /// The empty cells, in grid order.
    pub fn empty_cells(&self) -> (r: Vec<usize>)
        requires
            self.wf(),
        ensures
            r@ == empties(self.grid@, NCELLS as int),
    {
        let mut r: Vec<usize> = Vec::new();
        let mut c: usize = 0;
        while c < NCELLS
            invariant
                self.wf(),
                c <= NCELLS,
                r@ == empties(self.grid@, c as int),
            decreases NCELLS - c,
        {
            if self.grid[c].is_empty() {
                r.push(c);
            }
            c = c + 1;
        }
        r
    }

    /// Queues a new tile: in the empty cell that `pick` selects among the
    /// empty cells in grid order, with the value that `draw` gives. Nothing
    /// is queued where no cell is empty or no move is possible.
    pub fn add_tile_at(&mut self, pick: usize, draw: usize)
        requires
            old(self).wf(),
        ensures
            final(self).wf(),
            ({
                let e = empties(old(self).grid@, NCELLS as int);
                if e.len() == 0 || !can_move_spec(old(self).grid@) {
                    *final(self) == *old(self)
                } else {
                    &&& final(self).points_appearing@ == old(self).points_appearing@.push(
                        Appearing { position: cell_point(e[pick as int % e.len() as int] as int), value: spawn_value(draw) },
                    )
                    &&& final(self).grid == old(self).grid
                    &&& final(self).tiles_moving == old(self).tiles_moving
                    &&& final(self).score == old(self).score
                    &&& final(self).state == old(self).state
                    &&& final(self).moved == old(self).moved
                }
            }),
    {
        let e = self.empty_cells();
        if e.len() == 0 || !self.can_move() {
            return;
        }
        proof {
            lemma_empties(self.grid@, NCELLS as int);
        }
        let c = e[pick % e.len()];
        let value: usize = if draw >= 9 {
            4
        } else {
            2
        };
        self.points_appearing.push(Appearing { position: Point { x: c / NROWS, y: c % NROWS }, value: value });
    }

    /// Queues a new tile in a random empty cell: 2, or 4 with a chance of
    /// one in ten. Nothing is queued where no cell is empty or no move is
    /// possible.
    pub fn add_tile(&mut self)
        requires
            old(self).wf(),
        ensures
            final(self).wf(),
            !has_empty(old(self).grid@) || !can_move_spec(old(self).grid@) ==> *final(self) == *old(self),
            has_empty(old(self).grid@) && can_move_spec(old(self).grid@) ==> {
                &&& final(self).points_appearing@.len() == old(self).points_appearing@.len() + 1
                &&& final(self).points_appearing@.drop_last() == old(self).points_appearing@
                &&& old(self).grid@[point_cell(final(self).points_appearing@.last().position)].value == 0
                &&& (final(self).points_appearing@.last().value == 2 || final(self).points_appearing@.last().value == 4)
                &&& final(self).grid == old(self).grid
                &&& final(self).tiles_moving == old(self).tiles_moving
                &&& final(self).score == old(self).score
                &&& final(self).state == old(self).state
                &&& final(self).moved == old(self).moved
            },
    {
        proof {
            lemma_empties(self.grid@, NCELLS as int);
        }
        let n = self.empty_cells().len();
        if n == 0 {
            return;
        }
        let pick = random_below(n);
        let draw = random_below(10);
        self.add_tile_at(pick, draw);
        proof {
            if has_empty(old(self).grid@) && can_move_spec(old(self).grid@) {
                assert(self.points_appearing@.drop_last() == old(self).points_appearing@);
            }
        }
    }

    /// A game that has not started: every cell empty, no score.
    pub fn new() -> (r: Game)
        ensures
            r.wf(),
            forall|i: int| 0 <= i < NCELLS ==> #[trigger] r.grid@[i] == Tile::new_spec(),
            r.state == State::Playing,
            r.score == 0,
            !r.moved,
            r.tiles_moving@.len() == 0,
            r.points_appearing@.len() == 0,
    {
        let mut grid: Vec<Tile> = Vec::new();
        let mut c: usize = 0;
        while c < NCELLS
            invariant
                c <= NCELLS,
                grid@.len() == c,
                forall|i: int| 0 <= i < c ==> #[trigger] grid@[i] == Tile::new_spec(),
            decreases NCELLS - c,
        {
            grid.push(Tile::new());
            c = c + 1;
        }
        Game {
            grid: grid,
            state: State::Playing,
            score: 0,
            moved: false,
            tiles_moving: Vec::new(),
            points_appearing: Vec::new(),
        }
    }

    /// Clears the merge marks of every cell, ready for the next sweep.
    pub fn clear_blocked(&mut self)
        requires
            old(self).wf(),
        ensures
            final(self).grid@ == unblocked(old(self).grid@),
            final(self).state == old(self).state,
            final(self).score == old(self).score,
            final(self).moved == old(self).moved,
            final(self).tiles_moving == old(self).tiles_moving,
            final(self).points_appearing == old(self).points_appearing,
            final(self).wf(),
    {
        let mut c: usize = 0;
        while c < NCELLS
            invariant
                self.wf(),
                c <= NCELLS,
                forall|i: int|
                    0 <= i < NCELLS ==> #[trigger] self.grid@[i] == (if i < c {
                        Tile { merge_blocked: false, ..old(self).grid@[i] }
                    } else {
                        old(self).grid@[i]
                    }),
                self.state == old(self).state,
                self.score == old(self).score,
                self.moved == old(self).moved,
                self.tiles_moving == old(self).tiles_moving,
                self.points_appearing == old(self).points_appearing,
            decreases NCELLS - c,
        {
            let mut t = self.grid[c];
            t.blocked(false);
            self.grid.set(c, t);
            c = c + 1;
        }
        assert(self.grid@ == unblocked(old(self).grid@));
    }

    /// Whether the score stays representable through the next move, however
    /// the tiles merge: the score plus the number of cells times the sum of
    /// the values on the grid and of the tiles about to appear.
    pub fn room_for_move(&self) -> (r: bool)
        requires
            self.wf(),
        ensures
            r == (self.score + NCELLS * (grid_sum(self.grid@) + appearing_total(
                self.points_appearing@,
            )) <= usize::MAX),
    {
        let mut acc: usize = 0;
        let mut c: usize = 0;
        while c < NCELLS
            invariant
                self.wf(),
                c <= NCELLS,
                acc == grid_sum(self.grid@.subrange(0, c as int)),
            decreases NCELLS - c,
        {
            proof {
                assert(self.grid@.subrange(0, c + 1).drop_last() == self.grid@.subrange(0, c as int));
                lemma_sum_nonneg(self.grid@.subrange(0, c + 1));
            }
            let v = self.grid[c].value;
            if v > usize::MAX - acc {
                proof {
                    lemma_sum_prefix(self.grid@, c + 1);
                    lemma_appearing_nonneg(self.points_appearing@);
                }
                return false;
            }
            acc = acc + v;
            c = c + 1;
        }
        assert(self.grid@.subrange(0, NCELLS as int) == self.grid@);
        let mut k: usize = 0;
        while k < self.points_appearing.len()
            invariant
                self.wf(),
                k <= self.points_appearing@.len(),
                acc == grid_sum(self.grid@) + appearing_total(self.points_appearing@.subrange(0, k as int)),
            decreases self.points_appearing@.len() - k,
        {
            let ghost a = self.points_appearing@;
            proof {
                assert(a.subrange(0, k + 1).drop_last() == a.subrange(0, k as int));
                lemma_appearing_prefix(a, k + 1);
            }
            let v = self.points_appearing[k].value;
            if v > usize::MAX - acc {
                proof {
                    lemma_appearing_nonneg(a);
                }
                return false;
            }
            acc = acc + v;
            k = k + 1;
        }
        assert(self.points_appearing@.subrange(0, self.points_appearing@.len() as int) == self.points_appearing@);
        if acc > (usize::MAX - self.score) / NCELLS {
            proof {
                assert(acc * NCELLS > usize::MAX - self.score) by (nonlinear_arith)
                    requires acc > (usize::MAX - self.score) / NCELLS as int;
            }
            false
        } else {
            proof {
                assert(acc * NCELLS <= usize::MAX - self.score) by (nonlinear_arith)
                    requires acc <= (usize::MAX - self.score) / NCELLS as int, self.score <= usize::MAX;
            }
            true
        }
    }

    /// Takes one input of the player and returns whether the game ends.
    /// No key (a timeout) changes nothing. Any other key first ends the
    /// running animation and clears the merge marks; an arrow key then moves
    /// the tiles while the game is being played. A move that changed the grid queues a new tile; an
    /// input that did not, on a grid where no move is possible, loses the
    /// game.
    pub fn handle_key(&mut self, key: Option<Key>) -> (quit: bool)
        requires
            old(self).wf(),
            old(self).score + NCELLS * (grid_sum(old(self).grid@) + appearing_total(
                old(self).points_appearing@,
            )) <= usize::MAX,
        ensures
            final(self).wf(),
            quit == (key == Some(Key::Char('q'))),
            key.is_none() || quit ==> *final(self) == (Game { moved: false, ..*old(self) }),
            key.is_some() && !quit ==> {
                let f = finished(*old(self));
                let playing_move = old(self).state == State::Playing && key_direction(
                    key.unwrap(),
                ).is_some();
                &&& forall|i: int| 0 <= i < NCELLS ==> !(#[trigger] final(self).grid@[i]).merge_blocked
                &&& grid_sum(final(self).grid@) == grid_sum(f)
                &&& final(self).score >= old(self).score
                &&& old(self).state != State::Playing ==> final(self).state == old(self).state
                &&& final(self).moved == (final(self).tiles_moving@.len() > 0)
                &&& !final(self).moved ==> {
                    &&& final(self).grid@ == unblocked(f)
                    &&& final(self).score == old(self).score
                    &&& final(self).points_appearing@.len() == 0
                    &&& final(self).state == (if old(self).state == State::Playing && !can_move_spec(f) {
                        State::Lost
                    } else {
                        old(self).state
                    })
                }
                &&& final(self).moved ==> {
                    &&& playing_move
                    &&& has_empty(final(self).grid@) ==> final(self).points_appearing@.len() == 1
                        && final(self).grid@[point_cell(final(self).points_appearing@[0].position)].value == 0
                        && (final(self).points_appearing@[0].value == 2
                        || final(self).points_appearing@[0].value == 4)
                    &&& !has_empty(final(self).grid@) ==> final(self).points_appearing@.len() == 0
                }
                &&& !playing_move || !can_move_spec(f) ==> !final(self).moved
                &&& playing_move ==> {
                    let d = key_direction(key.unwrap()).unwrap();
                    let m = sweep_merges(unblocked(f), d);
                    &&& final(self).moved == can_slide(unblocked(f), d)
                    &&& final(self).score == old(self).score + int_total(m)
                    &&& final(self).moved ==> final(self).state == (if m.contains(WINNING_VALUE as int) {
                        State::Won
                    } else {
                        State::Playing
                    })
                    &&& (final(self).tiles_moving@.len() > 0) == final(self).moved
                    &&& forall|l: int|
                        0 <= l < line_count(d) ==> #[trigger] line_values_hold(
                            final(self).grid@,
                            d,
                            l,
                            slide_line(line_values(f, d, l, line_len(d))),
                            line_len(d),
                        )
                }
            },
    {
        self.moved = false;
        let k = match key {
            None => {
                return false;
            },
            Some(k) => k,
        };
        if k.is_quit() {
            return true;
        }
        let ghost o = *old(self);
        self.finish_animation();
        let ghost f = self.grid@;
        proof {
            lemma_finished_sum(o);
            lemma_sum_nonneg(f);
            let a = grid_sum(o.grid@) + appearing_total(o.points_appearing@);
            let b = grid_sum(f);
            assert(NCELLS * b <= NCELLS * a) by (nonlinear_arith)
                requires b <= a;
        }
        self.clear_blocked();
        proof {
            lemma_same_values(f, self.grid@);
            assert(unblocked(self.grid@) == unblocked(f));
        }
        let ghost pre_move = self.grid@;
        if self.state == State::Playing {
            match k.direction() {
                Some(d) => {
                    let merges = self.move_all(d);
                    proof {
                        lemma_total_nonneg(merges@);
                        lemma_as_ints(merges@);
                    }
                },
                None => {},
            }
        }
        let ghost g = self.grid@;
        self.clear_blocked();
        proof {
            lemma_same_values(g, self.grid@);
        }
        proof {
            if old(self).state == State::Playing && key_direction(k).is_some() {
                let d = key_direction(k).unwrap();
                assert forall|l: int| 0 <= l < line_count(d) implies #[trigger] line_values_hold(
                    self.grid@,
                    d,
                    l,
                    slide_line(line_values(f, d, l, line_len(d))),
                    line_len(d),
                ) by {
                    assert forall|p: int| 0 <= p < line_len(d) implies pre_move[at(d, l, p)].value
                        == f[at(d, l, p)].value by {
                        lemma_at(d, l, p);
                    }
                    assert(line_values(pre_move, d, l, line_len(d)) =~= line_values(f, d, l, line_len(d)));
                    lemma_line_values_same(g, self.grid@, d, l, slide_line(line_values(f, d, l, line_len(d))), line_len(d));
                }
            }
        }
        if self.moved {
            proof {
                if has_empty(self.grid@) {
                    let i = choose|i: int| 0 <= i < NCELLS && #[trigger] self.grid@[i].value == 0;
                    assert(can_move_spec(self.grid@));
                }
            }
            self.add_tile();
        } else if self.state == State::Playing && !self.can_move() {
            self.state = State::Lost;
        }
        false
    }

    /// How long to wait for the next key: a short while as long as tiles
    /// are sliding or appearing, so that the animation can go on and end;
    /// without limit otherwise.
    pub fn wait_timeout(&self) -> (r: Option<u64>)
        ensures
            r == (if self.tiles_moving@.len() + self.points_appearing@.len() > 0 {
                Some(POLL_MS)
            } else {
                None::<u64>
            }),
    {
        if self.tiles_moving.len() > 0 || self.points_appearing.len() > 0 {
            Some(POLL_MS)
        } else {
            None
        }
    }

    /// Ends the animation once it has nearly run its course, `elapsed_ms`
    /// milliseconds after it started. Returns whether it ended.
    pub fn tick(&mut self, elapsed_ms: u64) -> (done: bool)
        requires
            old(self).wf(),
        ensures
            final(self).wf(),
            done == animation_due(elapsed_ms),
            done ==> final(self).grid@ == finished(*old(self)) && final(self).tiles_moving@.len()
                == 0 && final(self).points_appearing@.len() == 0,
            !done ==> *final(self) == *old(self),
            final(self).score == old(self).score,
            final(self).state == old(self).state,
    {
        if animation_is_due(elapsed_ms) {
            self.finish_animation();
            true
        } else {
            false
        }
    }
}

/// What the lines of a sweep hold, after one more cell: the cell's line
/// holds one more packed tile, the others are as they were.
proof fn lemma_sweep_lines_step(og: Seq<Tile>, g0: Seq<Tile>, g1: Seq<Tile>, h: Seq<Tile>, d: Direction, k: int)
    requires
        og.len() == NCELLS,
        g0.len() == NCELLS,
        g1.len() == NCELLS,
        h.len() == NCELLS,
        0 <= k < NCELLS,
        forall|l: int|
            0 <= l < line_count(d) ==> #[trigger] line_holds(
                g0,
                d,
                l,
                slide_line(line_values(og, d, l, done(d, l, k))),
                done(d, l, k),
            ),
        line_holds(
            g1,
            d,
            k / line_len(d),
            push_tile(
                slide_line(line_values(og, d, k / line_len(d), k % line_len(d))),
                og[at(d, k / line_len(d), k % line_len(d))].value as int,
            ),
            k % line_len(d) + 1,
        ),
        forall|j: int|
            0 <= j < NCELLS && !(line_of(j, d) == k / line_len(d) && pos_of(j, d) <= k % line_len(
                d,
            )) ==> #[trigger] g1[j] == g0[j],
        forall|j: int|
            0 <= j < NCELLS ==> (#[trigger] h[j]).value == g1[j].value && h[j].merge_blocked
                == g1[j].merge_blocked,
    ensures
        forall|l: int|
            0 <= l < line_count(d) ==> #[trigger] line_holds(
                h,
                d,
                l,
                slide_line(line_values(og, d, l, done(d, l, k + 1))),
                done(d, l, k + 1),
            ),
{
    let lk = k / line_len(d);
    let pk = k % line_len(d);
    lemma_done_step(d, lk, k);
    let vals = line_values(og, d, lk, pk);
    let vals1 = line_values(og, d, lk, pk + 1);
    assert(vals1.drop_last() == vals);
    assert forall|l2: int| 0 <= l2 < line_count(d) implies #[trigger] line_holds(
        h,
        d,
        l2,
        slide_line(line_values(og, d, l2, done(d, l2, k + 1))),
        done(d, l2, k + 1),
    ) by {
        lemma_done_step(d, l2, k);
        lemma_done(d, l2, k);
        if l2 == lk {
            assert forall|p: int| 0 <= p < pk + 1 implies (#[trigger] h[at(d, lk, p)]).value
                == g1[at(d, lk, p)].value && h[at(d, lk, p)].merge_blocked
                == g1[at(d, lk, p)].merge_blocked by {
                lemma_at(d, lk, p);
            }
            lemma_line_holds_same(g1, h, d, lk, slide_line(vals1), pk + 1);
        } else {
            let n2 = done(d, l2, k);
            assert(line_holds(g0, d, l2, slide_line(line_values(og, d, l2, n2)), n2));
            assert forall|p: int| 0 <= p < n2 implies (#[trigger] h[at(d, l2, p)]).value
                == g0[at(d, l2, p)].value && h[at(d, l2, p)].merge_blocked
                == g0[at(d, l2, p)].merge_blocked by {
                lemma_at(d, l2, p);
            }
            lemma_line_holds_same(g0, h, d, l2, slide_line(line_values(og, d, l2, n2)), n2);
        }
    }
}

/// The merge results of a sweep so far, after one more cell.
proof fn lemma_sweep_merges_step(g: Seq<Tile>, d: Direction, k: int, after: Seq<int>)
    requires
        0 <= k < NCELLS,
        after == merges_upto(g, d, k / line_len(d)) + merged(
            slide_line(line_values(g, d, k / line_len(d), k % line_len(d) + 1)),
        ),
    ensures
        after == merges_upto(g, d, (k + 1) / line_len(d)) + merged(
            slide_line(line_values(g, d, (k + 1) / line_len(d), (k + 1) % line_len(d))),
        ),
{
    lemma_done_step(d, 0, k);
    let m = line_len(d);
    if k % m + 1 == m {
        let lk = k / m;
        assert(line_values(g, d, lk + 1, 0) =~= Seq::<int>::empty());
        assert(slide_line(line_values(g, d, lk + 1, 0)) =~= Seq::<(int, bool)>::empty());
        assert(merged(Seq::<(int, bool)>::empty()) =~= Seq::<int>::empty());
        assert(merges_upto(g, d, lk + 1) == merges_upto(g, d, lk) + merged(
            slide_line(line_values(g, d, lk, m)),
        ));
        assert(after == after + Seq::<int>::empty());
    }
}

/// The share of the score bound that one more tile of a sweep may use.
proof fn lemma_budget(k: int, s: int)
    requires
        0 <= k < NCELLS,
        s >= 0,
    ensures
        (NCELLS - k) * s == (NCELLS - k - 1) * s + s,
        (NCELLS - k - 1) * s >= 0,
{
    assert((NCELLS - k) * s == (NCELLS - k - 1) * s + s) by (nonlinear_arith);
    assert((NCELLS - k - 1) * s >= 0) by (nonlinear_arith)
        requires
            0 <= k < NCELLS,
            s >= 0,
    ;
}

/// One step of a tile from cell `c` into cell `n` in front of it (a slide
/// or a merge) keeps every processed cell but the tile's new one settled.
proof fn lemma_advance(g: Seq<Tile>, c: int, n: int, a: Tile, b: Tile, top: int, d: Direction)
    requires
        g.len() == NCELLS,
        0 <= c < NCELLS,
        front(c, d) == n,
        n >= 0,
        a.value == 0,
        forall|i: int| 0 <= i < NCELLS && rank(i, d) <= top && i != c ==> settled(g, i, d),
        forall|i: int|
            0 <= i < NCELLS && front(i, d) == c && rank(i, d) <= top ==> #[trigger] g[i].value
                == 0,
    ensures
        forall|i: int|
            0 <= i < NCELLS && rank(i, d) <= top && i != n ==> settled(
                g.update(c, a).update(n, b),
                i,
                d,
            ),
        forall|i: int|
            0 <= i < NCELLS && front(i, d) == n && rank(i, d) <= top ==> #[trigger] g.update(
                c,
                a,
            ).update(n, b)[i].value == 0,
{
    lemma_front(c, d);
    let g2 = g.update(c, a).update(n, b);
    assert forall|i: int| 0 <= i < NCELLS && rank(i, d) <= top && i != n implies settled(
        g2,
        i,
        d,
    ) by {
        lemma_front(i, d);
        if i != c {
            assert(settled(g, i, d));
            if front(i, d) == n {
                lemma_front_injective(i, c, d);
            }
            if front(i, d) == c {
                assert(g[i].value == 0);
            }
        }
    }
    assert forall|i: int| 0 <= i < NCELLS && front(i, d) == n && rank(i, d) <= top implies #[trigger] g2[i].value == 0 by {
        lemma_front_injective(i, c, d);
    }
}

/// Cell `c` as a column and a row.
pub open spec fn cell_point(c: int) -> Point {
    Point { x: (c / NROWS as int) as usize, y: (c % NROWS as int) as usize }
}

/// The value of a new tile for a draw in `0..10`: 4 for the highest draw.
pub open spec fn spawn_value(draw: usize) -> usize {
    if draw >= 9 {
        4
    } else {
        2
    }
}

pub open spec fn has_empty(g: Seq<Tile>) -> bool {
    exists|i: int| 0 <= i < NCELLS && #[trigger] g[i].value == 0
}

/// The empty cells among the first `n`, in grid order.
pub open spec fn empties(g: Seq<Tile>, n: int) -> Seq<usize>
    decreases n,
{
    if n <= 0 {
        seq![]
    } else if g[n - 1].value == 0 {
        empties(g, n - 1).push((n - 1) as usize)
    } else {
        empties(g, n - 1)
    }
}

pub proof fn lemma_empties(g: Seq<Tile>, n: int)
    requires
        0 <= n <= g.len(),
        n <= NCELLS,
    ensures
        forall|k: int|
            0 <= k < empties(g, n).len() ==> #[trigger] empties(g, n)[k] < n && g[empties(
                g,
                n,
            )[k] as int].value == 0,
        (exists|i: int| 0 <= i < n && #[trigger] g[i].value == 0) ==> empties(g, n).len() > 0,
    decreases n,
{
    if n > 0 {
        lemma_empties(g, n - 1);
        let e = empties(g, n - 1);
        if g[n - 1].value == 0 {
            assert(empties(g, n) == e.push((n - 1) as usize));
            assert forall|k: int| 0 <= k < empties(g, n).len() implies #[trigger] empties(g, n)[k] < n
                && g[empties(g, n)[k] as int].value == 0 by {
                if k < e.len() {
                    assert(empties(g, n)[k] == e[k]);
                }
            }
        } else {
            assert forall|i: int| 0 <= i < n && #[trigger] g[i].value == 0 implies empties(g, n).len() > 0 by {
                assert(0 <= i < n - 1);
            }
        }
    }
}

/// The grid once the moved tiles in the first `n` movements no longer
/// wait for their animation.
pub open spec fn without_pending(g: Seq<Tile>, moves: Seq<Movement>, n: int) -> Seq<Tile>
    decreases n,
{
    if n <= 0 {
        g
    } else {
        let h = without_pending(g, moves, n - 1);
        let c = point_cell(moves[n - 1].pnew);
        h.update(c, Tile { pending: false, ..h[c] })
    }
}

/// The grid once the first `n` appearing tiles have entered it.
pub open spec fn with_appeared(g: Seq<Tile>, apps: Seq<Appearing>, n: int) -> Seq<Tile>
    decreases n,
{
    if n <= 0 {
        g
    } else {
        let h = with_appeared(g, apps, n - 1);
        let c = point_cell(apps[n - 1].position);
        h.update(c, Tile { value: apps[n - 1].value, value_old: h[c].value, ..h[c] })
    }
}

/// Relies on rand's `Range::new(0, n)` and `ind_sample`: a draw from `0..n`;
/// `Range::new` panics where `n` is 0.
#[verifier::external_body]
fn random_below(n: usize) -> (r: usize)
    requires
        n > 0,
    ensures
        r < n,
{
    let range = rand::distributions::Range::new(0, n);
    rand::distributions::IndependentSample::ind_sample(&range, &mut rand::thread_rng())
}

/// The grid with every merge mark cleared.
pub open spec fn unblocked(g: Seq<Tile>) -> Seq<Tile> {
    Seq::new(g.len(), |i: int| Tile { merge_blocked: false, ..g[i] })
}

/// The sum of the values of the appearing tiles.
pub open spec fn appearing_total(a: Seq<Appearing>) -> int
    decreases a.len(),
{
    if a.len() == 0 {
        0
    } else {
        appearing_total(a.drop_last()) + a.last().value
    }
}

pub proof fn lemma_appearing_nonneg(a: Seq<Appearing>)
    ensures
        appearing_total(a) >= 0,
    decreases a.len(),
{
    if a.len() > 0 {
        lemma_appearing_nonneg(a.drop_last());
    }
}

/// A prefix of the appearing tiles adds up to no more than all of them.
pub proof fn lemma_appearing_prefix(a: Seq<Appearing>, k: int)
    requires
        0 <= k <= a.len(),
    ensures
        appearing_total(a.subrange(0, k)) <= appearing_total(a),
    decreases a.len() - k,
{
    if k < a.len() {
        lemma_appearing_prefix(a, k + 1);
        assert(a.subrange(0, k + 1).drop_last() == a.subrange(0, k));
    } else {
        assert(a.subrange(0, k) == a);
    }
}

/// A prefix of the grid adds up to no more than the whole grid.
pub proof fn lemma_sum_prefix(g: Seq<Tile>, k: int)
    requires
        0 <= k <= g.len(),
    ensures
        grid_sum(g.subrange(0, k)) <= grid_sum(g),
    decreases g.len() - k,
{
    if k < g.len() {
        lemma_sum_prefix(g, k + 1);
        assert(g.subrange(0, k + 1).drop_last() == g.subrange(0, k));
    } else {
        assert(g.subrange(0, k) == g);
    }
}

/// The grid once the animation of the latest move has ended.
pub open spec fn finished(g: Game) -> Seq<Tile> {
    with_appeared(
        without_pending(g.grid@, g.tiles_moving@, g.tiles_moving@.len() as int),
        g.points_appearing@,
        g.points_appearing@.len() as int,
    )
}

pub proof fn lemma_total_nonneg(s: Seq<usize>)
    ensures
        total(s) >= 0,
    decreases s.len(),
{
    if s.len() > 0 {
        lemma_total_nonneg(s.drop_last());
    }
}

/// Grids whose cells hold the same values have the same sum, and allow a
/// move alike.
pub proof fn lemma_same_values(g: Seq<Tile>, h: Seq<Tile>)
    requires
        g.len() == NCELLS,
        h.len() == NCELLS,
        forall|i: int| 0 <= i < NCELLS ==> #[trigger] g[i].value == h[i].value,
    ensures
        grid_sum(g) == grid_sum(h),
        can_move_spec(g) == can_move_spec(h),
        has_empty(g) == has_empty(h),
{
    lemma_same_values_sum(g, h);
    lemma_same_values_move(g, h);
    lemma_same_values_move(h, g);
    if has_empty(g) {
        let i = choose|i: int| 0 <= i < NCELLS && #[trigger] g[i].value == 0;
        assert(h[i].value == 0);
    }
    if has_empty(h) {
        let i = choose|i: int| 0 <= i < NCELLS && #[trigger] h[i].value == 0;
        assert(g[i].value == 0);
    }
}

proof fn lemma_same_values_sum(g: Seq<Tile>, h: Seq<Tile>)
    requires
        g.len() == h.len(),
        forall|i: int| 0 <= i < g.len() ==> #[trigger] g[i].value == h[i].value,
    ensures
        grid_sum(g) == grid_sum(h),
    decreases g.len(),
{
    if g.len() > 0 {
        lemma_same_values_sum(g.drop_last(), h.drop_last());
        assert(g[g.len() - 1].value == h[h.len() - 1].value);
    }
}

proof fn lemma_same_values_move(g: Seq<Tile>, h: Seq<Tile>)
    requires
        g.len() == NCELLS,
        h.len() == NCELLS,
        forall|i: int| 0 <= i < NCELLS ==> #[trigger] g[i].value == h[i].value,
    ensures
        can_move_spec(g) ==> can_move_spec(h),
{
    if can_move_spec(g) {
        let i = choose|i: int|
            0 <= i < NCELLS as int && (g[i].value == 0 || exists|j: int|
                adjacent(i, j) && #[trigger] g[j].value == g[i].value);
        assert(h[i].value == g[i].value);
        if g[i].value != 0 {
            let j = choose|j: int| adjacent(i, j) && #[trigger] g[j].value == g[i].value;
            let d = choose|d: Direction| #[trigger] front(i, d) == j && j >= 0;
            lemma_front(i, d);
            assert(h[j].value == g[j].value);
            assert(adjacent(i, j) && h[j].value == h[i].value);
        }
    }
}

/// Ending the animation adds no more to the grid than the appearing tiles.
pub proof fn lemma_finished_sum(g: Game)
    requires
        g.wf(),
    ensures
        finished(g).len() == NCELLS,
        grid_sum(finished(g)) <= grid_sum(g.grid@) + appearing_total(g.points_appearing@),
{
    lemma_without_pending(g.grid@, g.tiles_moving@, g.tiles_moving@.len() as int);
    let h = without_pending(g.grid@, g.tiles_moving@, g.tiles_moving@.len() as int);
    lemma_with_appeared(h, g.points_appearing@, g.points_appearing@.len() as int);
    assert(g.points_appearing@.subrange(0, g.points_appearing@.len() as int)
        == g.points_appearing@);
}

proof fn lemma_without_pending(g: Seq<Tile>, moves: Seq<Movement>, n: int)
    requires
        g.len() == NCELLS,
        0 <= n <= moves.len(),
        forall|k: int| 0 <= k < moves.len() ==> point_in_grid(#[trigger] moves[k].pnew),
    ensures
        without_pending(g, moves, n).len() == NCELLS,
        grid_sum(without_pending(g, moves, n)) == grid_sum(g),
    decreases n,
{
    if n > 0 {
        lemma_without_pending(g, moves, n - 1);
        let h = without_pending(g, moves, n - 1);
        let c = point_cell(moves[n - 1].pnew);
        assert(point_in_grid(moves[n - 1].pnew));
        lemma_sum_update(h, c, Tile { pending: false, ..h[c] });
    }
}

proof fn lemma_with_appeared(g: Seq<Tile>, apps: Seq<Appearing>, n: int)
    requires
        g.len() == NCELLS,
        0 <= n <= apps.len(),
        forall|k: int| 0 <= k < apps.len() ==> point_in_grid(#[trigger] apps[k].position),
    ensures
        with_appeared(g, apps, n).len() == NCELLS,
        grid_sum(with_appeared(g, apps, n)) <= grid_sum(g) + appearing_total(apps.subrange(0, n)),
    decreases n,
{
    if n > 0 {
        lemma_with_appeared(g, apps, n - 1);
        let h = with_appeared(g, apps, n - 1);
        let c = point_cell(apps[n - 1].position);
        assert(point_in_grid(apps[n - 1].position));
        lemma_sum_update(h, c, Tile { value: apps[n - 1].value, value_old: h[c].value, ..h[c] });
        assert(apps.subrange(0, n).drop_last() == apps.subrange(0, n - 1));
    }
}

/// The sum of a list of integers.
pub open spec fn int_total(s: Seq<int>) -> int
    decreases s.len(),
{
    if s.len() == 0 {
        0
    } else {
        int_total(s.drop_last()) + s.last()
    }
}

pub proof fn lemma_as_ints(s: Seq<usize>)
    ensures
        int_total(as_ints(s)) == total(s),
        s.contains(WINNING_VALUE) == as_ints(s).contains(WINNING_VALUE as int),
    decreases s.len(),
{
    if s.len() > 0 {
        assert(as_ints(s).drop_last() =~= as_ints(s.drop_last()));
        lemma_as_ints(s.drop_last());
    }
    if s.contains(WINNING_VALUE) {
        let j = choose|j: int| 0 <= j < s.len() && s[j] == WINNING_VALUE;
        assert(as_ints(s)[j] == WINNING_VALUE as int);
    }
    if as_ints(s).contains(WINNING_VALUE as int) {
        let j = choose|j: int| 0 <= j < as_ints(s).len() && as_ints(s)[j] == WINNING_VALUE as int;
        assert(s[j] == WINNING_VALUE);
    }
}

/// Every destination of the first `n` movements no longer waits for its
/// animation.
proof fn lemma_pending_cleared(g: Seq<Tile>, moves: Seq<Movement>, n: int)
    requires
        g.len() == NCELLS,
        0 <= n <= moves.len(),
        forall|k: int| 0 <= k < moves.len() ==> point_in_grid(#[trigger] moves[k].pnew),
    ensures
        without_pending(g, moves, n).len() == NCELLS,
        forall|k: int|
            0 <= k < n ==> !without_pending(g, moves, n)[point_cell(
                (#[trigger] moves[k]).pnew,
            )].pending,
    decreases n,
{
    if n > 0 {
        lemma_pending_cleared(g, moves, n - 1);
        assert(point_in_grid(moves[n - 1].pnew));
        assert forall|k: int| 0 <= k < n implies !without_pending(g, moves, n)[point_cell(
            (#[trigger] moves[k]).pnew,
        )].pending by {
            assert(point_in_grid(moves[k].pnew));
        }
    }
}

/// Once the first `n` appearing tiles have entered the grid, each of them
/// that no later one among them replaced holds its value, and no cell
/// changed whether it waits for an animation.
proof fn lemma_appeared_values(g: Seq<Tile>, apps: Seq<Appearing>, n: int)
    requires
        g.len() == NCELLS,
        0 <= n <= apps.len(),
        forall|k: int| 0 <= k < apps.len() ==> point_in_grid(#[trigger] apps[k].position),
    ensures
        with_appeared(g, apps, n).len() == NCELLS,
        forall|i: int| 0 <= i < NCELLS ==> (#[trigger] with_appeared(g, apps, n)[i]).pending == g[i].pending,
        forall|k: int|
            0 <= k < n && (forall|j: int| k < j < n ==> apps[j].position != apps[k].position)
                ==> with_appeared(g, apps, n)[point_cell((#[trigger] apps[k]).position)].value
                == apps[k].value,
    decreases n,
{
    if n > 0 {
        lemma_appeared_values(g, apps, n - 1);
        assert(point_in_grid(apps[n - 1].position));
        assert forall|k: int|
            0 <= k < n && (forall|j: int| k < j < n ==> apps[j].position != apps[k].position)
            implies with_appeared(g, apps, n)[point_cell((#[trigger] apps[k]).position)].value
            == apps[k].value by {
            assert(point_in_grid(apps[k].position));
            if k < n - 1 {
                assert(apps[n - 1].position != apps[k].position);
                assert(point_cell(apps[n - 1].position) != point_cell(apps[k].position));
            }
        }
    }
}

} // verus!
