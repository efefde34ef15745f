//! The mine field: tile storage in row-major order, mine placement with
//! adjacency-count propagation, flood-fill reveal, flagging, and the win
//! condition.

use crate::tile::{Tile, TileContent};
use rand::Rng;
use vstd::prelude::*;

verus! {

/// Errors of the board operations.
#[derive(Clone, Copy, Debug, PartialEq, Eq, Structural)]
pub enum FieldError {
    /// Construction was asked for a field with no tiles, or with at least
    /// as many mines as tiles.
    InvalidDimensions,
    /// The given coordinates lie outside the grid.
    OutOfBounds,
    /// Mine placement hit a tile that already holds a mine; the caller
    /// resamples a fresh position.
    Occupied,
}

/// Outcome of revealing a tile.
#[derive(Clone, Copy, Debug, PartialEq, Eq, Structural)]
pub enum RevealOutcome {
    /// The revealed tile was a mine: the game is over.
    Detonated,
    /// The revealed tile was safe; its adjacency count is carried along.
    Revealed(TileContent),
}

/// The outcome that revealing a tile of content `c` reports.
pub open spec fn outcome_of(c: TileContent) -> RevealOutcome {
    if c == TileContent::Mine {
        RevealOutcome::Detonated
    } else {
        RevealOutcome::Revealed(c)
    }
}

/// 1 for true, 0 for false: the indicator used to sum mines over a
/// tile's neighborhood.
pub open spec fn b2i(b: bool) -> int {
    if b {
        1
    } else {
        0
    }
}

/// The number of tiles of `s` satisfying `p`.
pub open spec fn count_matching(s: Seq<Tile>, p: spec_fn(Tile) -> bool) -> int
    decreases s.len(),
{
    if s.len() == 0 {
        0
    } else {
        count_matching(s.drop_last(), p) + b2i(p(s.last()))
    }
}

pub open spec fn is_mine_tile(t: Tile) -> bool {
    t.content == TileContent::Mine
}

/// A tile that counts toward the win condition: revealed and not a mine.
pub open spec fn is_cleared_tile(t: Tile) -> bool {
    t.probed && t.content != TileContent::Mine
}

/// How many tiles of `s` hold a mine.
pub open spec fn num_mines(s: Seq<Tile>) -> int {
    count_matching(s, |t: Tile| is_mine_tile(t))
}

/// How many tiles of `s` are revealed non-mine tiles.
pub open spec fn num_cleared(s: Seq<Tile>) -> int {
    count_matching(s, |t: Tile| is_cleared_tile(t))
}

proof fn lemma_count_matching_bounds(s: Seq<Tile>, p: spec_fn(Tile) -> bool)
    ensures
        0 <= count_matching(s, p) <= s.len(),
    decreases s.len(),
{
    if s.len() > 0 {
        lemma_count_matching_bounds(s.drop_last(), p);
    }
}

proof fn lemma_count_matching_update(s: Seq<Tile>, p: spec_fn(Tile) -> bool, i: int, v: Tile)
    requires
        0 <= i < s.len(),
    ensures
        count_matching(s.update(i, v), p) == count_matching(s, p) - b2i(p(s[i])) + b2i(p(v)),
    decreases s.len(),
{
    let su = s.update(i, v);
    if i == s.len() - 1 {
        assert(su.drop_last() =~= s.drop_last());
        assert(su.last() == v);
    } else {
        assert(su.drop_last() =~= s.drop_last().update(i, v));
        assert(su.last() == s.last());
        lemma_count_matching_update(s.drop_last(), p, i, v);
    }
}

proof fn lemma_count_matching_all_false(s: Seq<Tile>, p: spec_fn(Tile) -> bool)
    requires
        forall|n: int| 0 <= n < s.len() ==> !p(#[trigger] s[n]),
    ensures
        count_matching(s, p) == 0,
    decreases s.len(),
{
    if s.len() > 0 {
        lemma_count_matching_all_false(s.drop_last(), p);
    }
}

/// How many tiles of `s` are free of mines.
pub open spec fn count_free(s: Seq<Tile>) -> int {
    count_matching(s, |t: Tile| !is_mine_tile(t))
}

proof fn lemma_count_matching_take_step(s: Seq<Tile>, p: spec_fn(Tile) -> bool, m: int)
    requires
        0 <= m < s.len(),
    ensures
        count_matching(s.take(m + 1), p) == count_matching(s.take(m), p) + b2i(p(s[m])),
{
    assert(s.take(m + 1).drop_last() =~= s.take(m));
    assert(s.take(m + 1).last() == s[m]);
}

/// Free tiles and mine tiles partition the field.
proof fn lemma_count_free_complement(s: Seq<Tile>)
    ensures
        count_free(s) + num_mines(s) == s.len(),
    decreases s.len(),
{
    if s.len() > 0 {
        lemma_count_free_complement(s.drop_last());
    }
}

/// Whether `(x1, y1)` and `(x2, y2)` are distinct tiles of one Moore
/// neighborhood: both coordinates differ by at most one.
pub open spec fn coords_adjacent(x1: int, y1: int, x2: int, y2: int) -> bool {
    &&& !(x1 == x2 && y1 == y2)
    &&& -1 <= x1 - x2 <= 1
    &&& -1 <= y1 - y2 <= 1
}

pub open spec fn is_hidden_tile(t: Tile) -> bool {
    !t.probed
}

/// How many tiles of `s` are still hidden; the measure that reveal
/// operations drive down.
pub open spec fn num_hidden(s: Seq<Tile>) -> int {
    count_matching(s, |t: Tile| is_hidden_tile(t))
}

/// A hidden zero tile of `f`: in bounds, not yet revealed, and with no
/// mine in its neighborhood.
pub open spec fn open_zero(f: MineField, x: int, y: int) -> bool {
    &&& f.in_bounds(x, y)
    &&& !f.tile_at(x, y).probed
    &&& f.tile_at(x, y).content == TileContent::Zero
}

/// A path through hidden zero tiles of `f`: every stop is a hidden zero
/// tile and consecutive stops are Moore-adjacent.
pub open spec fn zero_chain(f: MineField, p: Seq<(int, int)>) -> bool {
    &&& forall|n: int| 0 <= n < p.len() ==> open_zero(f, (#[trigger] p[n]).0, p[n].1)
    &&& forall|n: int|
        0 < n < p.len() ==> coords_adjacent(p[n - 1].0, p[n - 1].1, (#[trigger] p[n]).0, p[n].1)
}

/// Whether `(x, y)` can be reached from `(x0, y0)` through hidden zero
/// tiles of `f`, both ends included.
pub open spec fn zero_reachable(f: MineField, x0: int, y0: int, x: int, y: int) -> bool {
    exists|p: Seq<(int, int)>|
        #[trigger] zero_chain(f, p) && p.len() > 0 && p[0] == (x0, y0) && p.last() == (x, y)
}

/// The region that revealing the hidden zero tile `(x0, y0)` uncovers:
/// every hidden zero tile reachable from it, plus every safe tile that
/// borders one of those. Mines are in neither part.
pub open spec fn in_reveal_region(f: MineField, x0: int, y0: int, x: int, y: int) -> bool {
    ||| zero_reachable(f, x0, y0, x, y)
    ||| (f.in_bounds(x, y) && f.tile_at(x, y).content != TileContent::Mine && exists|i: int, j: int|
        #[trigger] zero_reachable(f, x0, y0, i, j) && coords_adjacent(i, j, x, y))
}

/// How one reveal aimed at `(x, y)` relates the field before (`pre`) to
/// the field after (`post`) and to the reported outcome `o`: contents
/// and flags never move; a tile already revealed makes the call a
/// no-op; a mine or a numbered tile reveals just itself; a hidden zero
/// tile floods its whole region.
pub open spec fn reveal_post(
    pre: MineField,
    post: MineField,
    x: int,
    y: int,
    o: RevealOutcome,
) -> bool {
    &&& post.ncol == pre.ncol
    &&& post.nrow == pre.nrow
    &&& post.nmines == pre.nmines
    &&& post.tiles@.len() == pre.tiles@.len()
    &&& pre.in_bounds(x, y)
    &&& o == outcome_of(pre.tile_at(x, y).content)
    &&& forall|i: int, j: int|
        pre.in_bounds(i, j) ==> (#[trigger] post.tile_at(i, j)).content == pre.tile_at(
            i,
            j,
        ).content && post.tile_at(i, j).flagged == pre.tile_at(i, j).flagged
    &&& post.tile_at(x, y).probed
    &&& if pre.tile_at(x, y).probed {
        post.tiles@ == pre.tiles@ && post.ncleared == pre.ncleared
    } else if pre.tile_at(x, y).content != TileContent::Zero {
        &&& post.tiles@ == probe_marked(pre.tiles@, pre.ncol as int, x, y)
        &&& post.ncleared == pre.ncleared + b2i(pre.tile_at(x, y).content != TileContent::Mine)
    } else {
        forall|i: int, j: int|
            pre.in_bounds(i, j) ==> ((#[trigger] post.tile_at(i, j)).probed <==> pre.tile_at(
                i,
                j,
            ).probed || in_reveal_region(pre, x, y, i, j))
    }
}

/// Revealing a tile a second time reports the same outcome as the first
/// reveal and leaves the field exactly as the first reveal left it.
pub proof fn lemma_reveal_idempotent(
    s0: MineField,
    s1: MineField,
    s2: MineField,
    x: int,
    y: int,
    o1: RevealOutcome,
    o2: RevealOutcome,
)
    requires
        reveal_post(s0, s1, x, y, o1),
        reveal_post(s1, s2, x, y, o2),
    ensures
        o2 == o1,
        s2.tiles@ == s1.tiles@,
        s2.ncleared == s1.ncleared,
{
    assert(s1.tile_at(x, y).probed);
    assert(s1.tile_at(x, y).content == s0.tile_at(x, y).content);
}

/// The tiles after a flag toggle aimed at `(x, y)` on a grid `ncol`
/// wide: a hidden tile has its flag flipped, a revealed tile is left
/// alone.
pub open spec fn flag_toggled(s: Seq<Tile>, ncol: int, x: int, y: int) -> Seq<Tile> {
    let n = x + y * ncol;
    let t = s[n];
    if t.probed {
        s
    } else {
        s.update(n, Tile { flagged: !t.flagged, ..t })
    }
}

/// The tiles after the single tile at `(x, y)` is revealed; revealing
/// is monotonic, so an already-revealed tile changes nothing.
pub open spec fn probe_marked(s: Seq<Tile>, ncol: int, x: int, y: int) -> Seq<Tile> {
    let n = x + y * ncol;
    let t = s[n];
    if t.probed {
        s
    } else {
        s.update(n, Tile { probed: true, ..t })
    }
}

/// Toggling the flag of one tile twice gives back the original tiles:
/// on a hidden tile the two flips cancel, and on a revealed tile both
/// toggles are no-ops.
pub proof fn lemma_flag_toggle_involution(s: Seq<Tile>, ncol: int, x: int, y: int)
    requires
        0 <= x + y * ncol < s.len(),
    ensures
        flag_toggled(flag_toggled(s, ncol, x, y), ncol, x, y) == s,
{
    let n = x + y * ncol;
    let t = s[n];
    if !t.probed {
        let t1 = Tile { flagged: !t.flagged, ..t };
        let s1 = s.update(n, t1);
        assert(s1[n] == t1);
        assert(flag_toggled(s1, ncol, x, y) == s1.update(n, Tile { flagged: !t1.flagged, ..t1 }));
        assert(Tile { flagged: !t1.flagged, ..t1 } == t);
        assert(s1.update(n, t) =~= s);
    }
}

/// The mine field.
pub struct MineField {
    /// Grid width: number of columns.
    pub ncol: usize,
    /// Grid height: number of rows.
    pub nrow: usize,
    /// The tiles in row-major order: `(x, y)` lives at `x + y * ncol`.
    pub tiles: Vec<Tile>,
    /// How many mines the field was built with.
    pub nmines: usize,
    /// Running count of revealed non-mine tiles.
    pub ncleared: usize,
}

impl MineField {
    pub open spec fn in_bounds(self, x: int, y: int) -> bool {
        0 <= x < self.ncol && 0 <= y < self.nrow
    }

    /// Row-major linear index of `(x, y)`.
    pub open spec fn idx(self, x: int, y: int) -> int {
        x + y * self.ncol
    }

    pub open spec fn tile_at(self, x: int, y: int) -> Tile {
        self.tiles@[self.idx(x, y)]
    }

    pub open spec fn mine_at(self, x: int, y: int) -> bool {
        self.in_bounds(x, y) && self.tile_at(x, y).content == TileContent::Mine
    }

    /// The exact number of mines in the clipped Moore neighborhood of
    /// `(x, y)`: out-of-bounds neighbors contribute nothing.
    pub open spec fn adj_mines(self, x: int, y: int) -> int {
        b2i(self.mine_at(x - 1, y - 1)) + b2i(self.mine_at(x, y - 1)) + b2i(
            self.mine_at(x + 1, y - 1),
        ) + b2i(self.mine_at(x - 1, y)) + b2i(self.mine_at(x + 1, y)) + b2i(
            self.mine_at(x - 1, y + 1),
        ) + b2i(self.mine_at(x, y + 1)) + b2i(self.mine_at(x + 1, y + 1))
    }

    /// The grid's shape is sound: at least one column and row, and the
    /// tile vector holds exactly one tile per cell.
    pub open spec fn grid_wf(self) -> bool {
        &&& self.ncol >= 1
        &&& self.nrow >= 1
        &&& self.tiles@.len() == self.ncol * self.nrow
    }

    /// Every non-mine tile's content is the count of mines in its
    /// clipped Moore neighborhood.
    pub open spec fn counts_ok(self) -> bool {
        forall|x: int, y: int|
            self.in_bounds(x, y) && !self.mine_at(x, y) ==> self.tile_at(x, y).content.count()
                == #[trigger] self.adj_mines(x, y)
    }

    /// The full board invariant: sound shape, consistent adjacency
    /// counts, and the mine and cleared counters agreeing with the tiles.
    pub open spec fn wf(self) -> bool {
        &&& self.grid_wf()
        &&& self.counts_ok()
        &&& self.nmines == num_mines(self.tiles@)
        &&& self.nmines < self.tiles@.len()
        &&& self.ncleared == num_cleared(self.tiles@)
    }

    /// Checks that `(x, y)` lies on the grid.
    pub fn check_bounds(&self, x: usize, y: usize) -> (r: Result<(), FieldError>)
        ensures
            r.is_ok() <==> self.in_bounds(x as int, y as int),
            r.is_err() ==> r == Err::<(), FieldError>(FieldError::OutOfBounds),
    {
        if x < self.ncol && y < self.nrow {
            Ok(())
        } else {
            Err(FieldError::OutOfBounds)
        }
    }

    /// One step of the neighborhood sweep after a mine was planted at
    /// `(x, y)`: visits the offset `(dx, dy)` and, when it names an
    /// in-bounds non-mine neighbor, steps its adjacency count up by one.
    /// `orig` is the field before the mine was planted, `mid` the field
    /// with the mine planted but no count touched yet.
    #[verifier::rlimit(50)]
    fn bump_neighbor(
        &mut self,
        x: usize,
        y: usize,
        dx: usize,
        dy: usize,
        Ghost(orig): Ghost<MineField>,
        Ghost(mid): Ghost<MineField>,
    )
        requires
            orig.grid_wf(),
            orig.counts_ok(),
            orig.in_bounds(x as int, y as int),
            !orig.mine_at(x as int, y as int),
            mid.ncol == orig.ncol,
            mid.nrow == orig.nrow,
            mid.tiles@ == orig.tiles@.update(
                orig.idx(x as int, y as int),
                Tile { content: TileContent::Mine, ..orig.tile_at(x as int, y as int) },
            ),
            dx < 3,
            dy < 3,
            !(dx == 1 && dy == 1),
            bumped(mid, *old(self), x as int, y as int, 3 * dy + dx),
            num_mines(old(self).tiles@) == num_mines(mid.tiles@),
            num_cleared(old(self).tiles@) == num_cleared(mid.tiles@),
        ensures
            bumped(mid, *final(self), x as int, y as int, 3 * dy + dx + 1),
            num_mines(final(self).tiles@) == num_mines(mid.tiles@),
            num_cleared(final(self).tiles@) == num_cleared(mid.tiles@),
    {
        let ghost k = 3 * dy + dx;
        let ghost prev = *self;
        let ocx = neighbor_coord(x, self.ncol, dx);
        let ocy = neighbor_coord(y, self.nrow, dy);
        if let (Some(ax), Some(ay)) = (ocx, ocy) {
            proof {
                vstd::std_specs::vec::axiom_spec_len(&self.tiles);
                lemma_idx_in_range(orig.ncol as int, orig.nrow as int, x as int, y as int);
                assert(self.tiles@.len() == mid.tiles@.len());
                assert(mid.tiles@.len() == orig.tiles@.len());
                lemma_idx_in_range(self.ncol as int, self.nrow as int, ax as int, ay as int);
                lemma_idx_injective(mid.ncol as int, ax as int, ay as int, x as int, y as int);
            }
            let ai: usize = ax + ay * self.ncol;
            let ta = self.tiles[ai];
            proof {
                assert(self.tile_at(ax as int, ay as int) == bumped_tile(
                    mid,
                    x as int,
                    y as int,
                    k,
                    ax as int,
                    ay as int,
                ));
                assert(ta == mid.tile_at(ax as int, ay as int));
                assert(ta == orig.tile_at(ax as int, ay as int));
            }
            if !matches!(ta.content, TileContent::Mine) {
                proof {
                    lemma_adj_le_seven(orig, x as int, y as int, ax as int, ay as int);
                    assert(ta.content.count() == orig.adj_mines(ax as int, ay as int));
                }
                let tb = Tile {
                    content: ta.content.incremented(),
                    flagged: ta.flagged,
                    probed: ta.probed,
                };
                self.tiles[ai] = tb;
                proof {
                    lemma_count_matching_update(prev.tiles@, |t: Tile| is_mine_tile(t), ai as int, tb);
                    lemma_count_matching_update(
                        prev.tiles@,
                        |t: Tile| is_cleared_tile(t),
                        ai as int,
                        tb,
                    );
                    assert forall|i: int, j: int| mid.in_bounds(i, j) implies #[trigger] self.tile_at(
                        i,
                        j,
                    ) == bumped_tile(mid, x as int, y as int, k + 1, i, j) by {
                        lemma_idx_in_range(orig.ncol as int, orig.nrow as int, i, j);
                        if i == ax && j == ay {
                            assert(prev.tiles@.update(ai as int, tb)[mid.idx(i, j)] == tb);
                        } else {
                            lemma_idx_injective(mid.ncol as int, i, j, ax as int, ay as int);
                            assert(prev.tiles@.update(ai as int, tb)[mid.idx(i, j)]
                                == prev.tiles@[mid.idx(i, j)]);
                            assert(prev.tile_at(i, j) == bumped_tile(mid, x as int, y as int, k, i, j));
                        }
                    }
                }
            } else {
                proof {
                    assert forall|i: int, j: int| mid.in_bounds(i, j) implies #[trigger] self.tile_at(
                        i,
                        j,
                    ) == bumped_tile(mid, x as int, y as int, k + 1, i, j) by {}
                }
            }
        } else {
            proof {
                assert forall|i: int, j: int| mid.in_bounds(i, j) implies #[trigger] self.tile_at(
                    i,
                    j,
                ) == bumped_tile(mid, x as int, y as int, k + 1, i, j) by {}
            }
        }
    }

    /// Plants a mine on `(x, y)` and steps up the adjacency count of
    /// every in-bounds non-mine neighbor, or reports `Occupied` and
    /// changes nothing when a mine already sits there. Runs at
    /// construction time, before anything is revealed.
    #[verifier::loop_isolation(false)]
    pub fn place_mine(&mut self, x: usize, y: usize) -> (r: Result<(), FieldError>)
        requires
            old(self).grid_wf(),
            old(self).counts_ok(),
            old(self).in_bounds(x as int, y as int),
            !old(self).tile_at(x as int, y as int).probed,
        ensures
            final(self).ncol == old(self).ncol,
            final(self).nrow == old(self).nrow,
            final(self).nmines == old(self).nmines,
            final(self).ncleared == old(self).ncleared,
            final(self).tiles@.len() == old(self).tiles@.len(),
            match r {
                Ok(()) => {
                    &&& !old(self).mine_at(x as int, y as int)
                    &&& final(self).counts_ok()
                    &&& num_mines(final(self).tiles@) == num_mines(old(self).tiles@) + 1
                    &&& num_cleared(final(self).tiles@) == num_cleared(old(self).tiles@)
                    &&& forall|i: int, j: int|
                        old(self).in_bounds(i, j) ==> (#[trigger] final(self).mine_at(i, j)
                            <==> old(self).mine_at(i, j) || (i == x && j == y))
                    &&& forall|i: int, j: int|
                        old(self).in_bounds(i, j) ==> (#[trigger] final(self).tile_at(i, j)).probed
                            == old(self).tile_at(i, j).probed && final(self).tile_at(i, j).flagged
                            == old(self).tile_at(i, j).flagged
                },
                Err(e) => {
                    &&& e == FieldError::Occupied
                    &&& old(self).mine_at(x as int, y as int)
                    &&& final(self).tiles@ == old(self).tiles@
                },
            },
    {
        proof {
            vstd::std_specs::vec::axiom_spec_len(&self.tiles);
            lemma_idx_in_range(self.ncol as int, self.nrow as int, x as int, y as int);
        }
        let i0: usize = x + y * self.ncol;
        let t0 = self.tiles[i0];
        if matches!(t0.content, TileContent::Mine) {
            return Err(FieldError::Occupied);
        }
        self.tiles[i0] = Tile { content: TileContent::Mine, flagged: t0.flagged, probed: t0.probed };
        proof {
            lemma_count_matching_update(
                old(self).tiles@,
                |t: Tile| is_mine_tile(t),
                i0 as int,
                self.tiles@[i0 as int],
            );
            lemma_count_matching_update(
                old(self).tiles@,
                |t: Tile| is_cleared_tile(t),
                i0 as int,
                self.tiles@[i0 as int],
            );
        }
        let ghost orig = *old(self);
        let ghost mid = *self;
        assert(bumped(mid, *self, x as int, y as int, 0));
        let mut dy: usize = 0;
        while dy < 3
            invariant
                dy <= 3,
                bumped(mid, *self, x as int, y as int, 3 * dy),
                num_mines(self.tiles@) == num_mines(mid.tiles@),
                num_cleared(self.tiles@) == num_cleared(mid.tiles@),
            decreases 3 - dy,
        {
            let mut dx: usize = 0;
            while dx < 3
                invariant
                    dx <= 3,
                    bumped(mid, *self, x as int, y as int, 3 * dy + dx),
                    num_mines(self.tiles@) == num_mines(mid.tiles@),
                    num_cleared(self.tiles@) == num_cleared(mid.tiles@),
                decreases 3 - dx,
            {
                if !(dx == 1 && dy == 1) {
                    self.bump_neighbor(x, y, dx, dy, Ghost(orig), Ghost(mid));
                } else {
                    proof {
                        assert forall|i: int, j: int| mid.in_bounds(i, j) implies #[trigger] self.tile_at(
                            i,
                            j,
                        ) == bumped_tile(mid, x as int, y as int, (3 * dy + dx + 1) as int, i, j) by {}
                    }
                }
                dx += 1;
            }
            dy += 1;
        }
        proof {
            lemma_place_finish(orig, mid, *self, x as int, y as int);
        }
        Ok(())
    }

    /// The linear index of the `r`-th mine-free tile (counting from
    /// zero) in storage order.
    #[verifier::loop_isolation(false)]
    fn nth_free_tile(&self, r: usize) -> (m: usize)
        requires
            r < count_free(self.tiles@),
        ensures
            m < self.tiles@.len(),
            !is_mine_tile(self.tiles@[m as int]),
    {
        let n = self.tiles.len();
        let mut m: usize = 0;
        let mut seen: usize = 0;
        while m < n
            invariant
                m <= n,
                seen == count_matching(self.tiles@.take(m as int), |t: Tile| !is_mine_tile(t)),
                seen <= r,
            decreases n - m,
        {
            proof {
                lemma_count_matching_take_step(
                    self.tiles@,
                    |t: Tile| !is_mine_tile(t),
                    m as int,
                );
            }
            if !matches!(self.tiles[m].content, TileContent::Mine) {
                if seen == r {
                    return m;
                }
                seen += 1;
            }
            m += 1;
        }
        proof {
            assert(self.tiles@.take(n as int) =~= self.tiles@);
            assert(false);
        }
        0
    }

    /// Scatters `nmines` mines over a still-empty field, each at a
    /// position drawn uniformly at random among the tiles that are still
    /// free, so that every layout of distinct mines is equally likely.
    /// Iterative on purpose: placement must not lean on the call stack.
    #[verifier::loop_isolation(false)]
    pub fn populate_mines(&mut self, nmines: usize) -> (r: Result<(), FieldError>)
        requires
            old(self).grid_wf(),
            old(self).counts_ok(),
            num_mines(old(self).tiles@) == 0,
            forall|n: int| 0 <= n < old(self).tiles@.len() ==> !(#[trigger] old(self).tiles@[n]).probed,
            nmines < old(self).tiles@.len(),
        ensures
            r == Ok::<(), FieldError>(()),
            final(self).grid_wf(),
            final(self).counts_ok(),
            final(self).ncol == old(self).ncol,
            final(self).nrow == old(self).nrow,
            final(self).nmines == old(self).nmines,
            final(self).ncleared == old(self).ncleared,
            num_mines(final(self).tiles@) == nmines,
            num_cleared(final(self).tiles@) == num_cleared(old(self).tiles@),
            forall|i: int, j: int|
                old(self).in_bounds(i, j) ==> (#[trigger] final(self).tile_at(i, j)).probed == old(
                    self,
                ).tile_at(i, j).probed && final(self).tile_at(i, j).flagged == old(self).tile_at(
                    i,
                    j,
                ).flagged,
    {
        let mut remaining: usize = nmines;
        while remaining > 0
            invariant
                remaining <= nmines,
                self.grid_wf(),
                self.counts_ok(),
                self.ncol == old(self).ncol,
                self.nrow == old(self).nrow,
                self.nmines == old(self).nmines,
                self.ncleared == old(self).ncleared,
                self.tiles@.len() == old(self).tiles@.len(),
                num_mines(self.tiles@) == nmines - remaining,
                num_cleared(self.tiles@) == num_cleared(old(self).tiles@),
                forall|i: int, j: int|
                    old(self).in_bounds(i, j) ==> (#[trigger] self.tile_at(i, j)).probed == old(
                        self,
                    ).tile_at(i, j).probed && self.tile_at(i, j).flagged == old(self).tile_at(
                        i,
                        j,
                    ).flagged,
            decreases remaining,
        {
            let ntiles = self.tiles.len();
            let placed = nmines - remaining;
            let free_count = ntiles - placed;
            proof {
                lemma_count_free_complement(self.tiles@);
            }
            let r = random_index(free_count);
            let target = self.nth_free_tile(r);
            proof {
                lemma_div_mod_grid(self.ncol as int, self.nrow as int, target as int);
            }
            let target_x = target % self.ncol;
            let target_y = target / self.ncol;
            proof {
                lemma_idx_in_range(
                    self.ncol as int,
                    self.nrow as int,
                    target_x as int,
                    target_y as int,
                );
                assert(self.tile_at(target_x as int, target_y as int) == self.tiles@[target as int]);
            }
            match self.place_mine(target_x, target_y) {
                Ok(()) => {
                    remaining = remaining - 1;
                },
                Err(_) => {
                    proof {
                        assert(false);
                    }
                },
            }
        }
        Ok(())
    }

    /// Builds a `ncol` by `nrow` field with exactly `nmines` mines at
    /// distinct random positions and every tile hidden and unflagged, or
    /// fails with `InvalidDimensions` when the field would have no tiles
    /// or no room for a safe tile. The product must fit the machine's
    /// index range: one tile is stored per cell.
    #[verifier::loop_isolation(false)]
    pub fn new(ncol: usize, nrow: usize, nmines: usize) -> (r: Result<MineField, FieldError>)
        requires
            ncol * nrow <= usize::MAX,
        ensures
            match r {
                Ok(f) => {
                    &&& 0 < ncol * nrow
                    &&& nmines < ncol * nrow
                    &&& f.wf()
                    &&& f.ncol == ncol
                    &&& f.nrow == nrow
                    &&& f.nmines == nmines
                    &&& f.ncleared == 0
                    &&& forall|i: int, j: int|
                        f.in_bounds(i, j) ==> !(#[trigger] f.tile_at(i, j)).probed && !f.tile_at(
                            i,
                            j,
                        ).flagged
                },
                Err(e) => {
                    &&& e == FieldError::InvalidDimensions
                    &&& (ncol * nrow == 0 || nmines >= ncol * nrow)
                },
            },
    {
        let ntiles: usize = ncol * nrow;
        if ntiles == 0 || nmines >= ntiles {
            return Err(FieldError::InvalidDimensions);
        }
        let blank = Tile { flagged: false, probed: false, content: TileContent::Zero };
        let mut tiles: Vec<Tile> = Vec::new();
        let mut n: usize = 0;
        while n < ntiles
            invariant
                n <= ntiles,
                tiles@.len() == n,
                forall|m: int|
                    0 <= m < n ==> #[trigger] tiles@[m] == (Tile {
                        flagged: false,
                        probed: false,
                        content: TileContent::Zero,
                    }),
            decreases ntiles - n,
        {
            let ghost tprev = tiles@;
            tiles.push(blank);
            proof {
                assert forall|m: int|
                    0 <= m < n + 1 implies #[trigger] tiles@[m] == (Tile {
                    flagged: false,
                    probed: false,
                    content: TileContent::Zero,
                }) by {
                    if m < n {
                        assert(tprev.push(blank)[m] == tprev[m]);
                    } else {
                        assert(tprev.push(blank)[m] == blank);
                    }
                }
            }
            n += 1;
        }
        let mut field = MineField { ncol, nrow, tiles, nmines, ncleared: 0 };
        proof {
            lemma_fresh_field(field);
            lemma_count_matching_all_false(field.tiles@, |t: Tile| is_mine_tile(t));
            lemma_count_matching_all_false(field.tiles@, |t: Tile| is_cleared_tile(t));
        }
        let outcome = field.populate_mines(nmines);
        proof {
            assert(outcome == Ok::<(), FieldError>(()));
            assert forall|i: int, j: int|
                field.in_bounds(i, j) implies !(#[trigger] field.tile_at(i, j)).probed
                && !field.tile_at(i, j).flagged by {
                lemma_idx_in_range(ncol as int, nrow as int, i, j);
            }
        }
        Ok(field)
    }

    /// Reveals the single tile at `(x, y)` without any expansion. An
    /// already-revealed tile is left untouched and its outcome merely
    /// reported again; a freshly revealed safe tile raises `ncleared` by
    /// one; a mine reports `Detonated` and counts toward nothing.
    pub fn probe_tile(&mut self, x: usize, y: usize) -> (r: Result<RevealOutcome, FieldError>)
        requires
            old(self).wf(),
        ensures
            final(self).wf(),
            final(self).ncol == old(self).ncol,
            final(self).nrow == old(self).nrow,
            final(self).nmines == old(self).nmines,
            final(self).tiles@.len() == old(self).tiles@.len(),
            r.is_ok() <==> old(self).in_bounds(x as int, y as int),
            match r {
                Ok(o) => {
                    &&& o == outcome_of(old(self).tile_at(x as int, y as int).content)
                    &&& final(self).tiles@ == probe_marked(
                        old(self).tiles@,
                        old(self).ncol as int,
                        x as int,
                        y as int,
                    )
                    &&& final(self).ncleared == old(self).ncleared + b2i(
                        !old(self).tile_at(x as int, y as int).probed && old(self).tile_at(
                            x as int,
                            y as int,
                        ).content != TileContent::Mine,
                    )
                },
                Err(e) => {
                    &&& e == FieldError::OutOfBounds
                    &&& final(self).tiles@ == old(self).tiles@
                    &&& final(self).ncleared == old(self).ncleared
                },
            },
    {
        if x >= self.ncol || y >= self.nrow {
            return Err(FieldError::OutOfBounds);
        }
        proof {
            vstd::std_specs::vec::axiom_spec_len(&self.tiles);
            lemma_idx_in_range(self.ncol as int, self.nrow as int, x as int, y as int);
        }
        let i0: usize = x + y * self.ncol;
        let t = self.tiles[i0];
        if t.probed {
            return Ok(outcome_for(t.content));
        }
        let tp = Tile { flagged: t.flagged, probed: true, content: t.content };
        self.tiles[i0] = tp;
        if !matches!(t.content, TileContent::Mine) {
            proof {
                lemma_count_matching_update(
                    old(self).tiles@,
                    |t2: Tile| is_cleared_tile(t2),
                    i0 as int,
                    tp,
                );
                lemma_count_matching_bounds(self.tiles@, |t2: Tile| is_cleared_tile(t2));
            }
            self.ncleared = self.ncleared + 1;
        }
        proof {
            lemma_count_matching_update(old(self).tiles@, |t2: Tile| is_mine_tile(t2), i0 as int, tp);
            lemma_count_matching_update(
                old(self).tiles@,
                |t2: Tile| is_cleared_tile(t2),
                i0 as int,
                tp,
            );
            assert forall|n2: int|
                0 <= n2 < old(self).tiles@.len() implies (#[trigger] self.tiles@[n2]).content
                == old(self).tiles@[n2].content by {
                if n2 == i0 {
                    assert(old(self).tiles@.update(i0 as int, tp)[n2] == tp);
                } else {
                    assert(old(self).tiles@.update(i0 as int, tp)[n2] == old(self).tiles@[n2]);
                }
            }
            lemma_same_contents(*old(self), *self);
        }
        Ok(outcome_for(t.content))
    }

    /// Toggles the flag on the hidden tile at `(x, y)`; a revealed tile
    /// keeps its state, since a flag on an open tile means nothing.
    pub fn flag_tile(&mut self, x: usize, y: usize)
        requires
            old(self).wf(),
            old(self).in_bounds(x as int, y as int),
        ensures
            final(self).wf(),
            final(self).ncol == old(self).ncol,
            final(self).nrow == old(self).nrow,
            final(self).nmines == old(self).nmines,
            final(self).ncleared == old(self).ncleared,
            final(self).tiles@ == flag_toggled(
                old(self).tiles@,
                old(self).ncol as int,
                x as int,
                y as int,
            ),
    {
        proof {
            vstd::std_specs::vec::axiom_spec_len(&self.tiles);
            lemma_idx_in_range(self.ncol as int, self.nrow as int, x as int, y as int);
        }
        let i0: usize = x + y * self.ncol;
        let t = self.tiles[i0];
        if !t.probed {
            let tf = Tile { flagged: !t.flagged, probed: t.probed, content: t.content };
            self.tiles[i0] = tf;
            proof {
                lemma_count_matching_update(
                    old(self).tiles@,
                    |t2: Tile| is_mine_tile(t2),
                    i0 as int,
                    tf,
                );
                lemma_count_matching_update(
                    old(self).tiles@,
                    |t2: Tile| is_cleared_tile(t2),
                    i0 as int,
                    tf,
                );
                assert forall|n2: int|
                    0 <= n2 < old(self).tiles@.len() implies (#[trigger] self.tiles@[n2]).content
                    == old(self).tiles@[n2].content by {
                    if n2 == i0 {
                        assert(old(self).tiles@.update(i0 as int, tf)[n2] == tf);
                    } else {
                        assert(old(self).tiles@.update(i0 as int, tf)[n2] == old(self).tiles@[n2]);
                    }
                }
                lemma_same_contents(*old(self), *self);
            }
        }
    }

    /// Toggles the flag at `(x, y)` after checking the coordinates, as a
    /// pointer-driven caller wants: out-of-range coordinates are
    /// reported, never acted on.
    pub fn flag(&mut self, x: usize, y: usize) -> (r: Result<(), FieldError>)
        requires
            old(self).wf(),
        ensures
            final(self).wf(),
            final(self).ncol == old(self).ncol,
            final(self).nrow == old(self).nrow,
            final(self).nmines == old(self).nmines,
            final(self).ncleared == old(self).ncleared,
            r.is_ok() <==> old(self).in_bounds(x as int, y as int),
            match r {
                Ok(()) => final(self).tiles@ == flag_toggled(
                    old(self).tiles@,
                    old(self).ncol as int,
                    x as int,
                    y as int,
                ),
                Err(e) => {
                    &&& e == FieldError::OutOfBounds
                    &&& final(self).tiles@ == old(self).tiles@
                },
            },
    {
        match self.check_bounds(x, y) {
            Ok(()) => {
                self.flag_tile(x, y);
                Ok(())
            },
            Err(e) => Err(e),
        }
    }

    /// One step of the flood fill: visits the neighbor of the revealed
    /// zero tile `(cx, cy)` at offset `(dx, dy)`. A hidden safe neighbor
    /// is revealed; if it is itself a zero tile it also joins the
    /// worklist. Mines and already-revealed tiles are left alone. `pre`
    /// is the field as the flood fill found it, `(x, y)` its origin.
    #[verifier::rlimit(100)]
    fn chain_neighbor(
        &mut self,
        stack: &mut Vec<(usize, usize)>,
        cx: usize,
        cy: usize,
        dx: usize,
        dy: usize,
        x: usize,
        y: usize,
        Ghost(pre): Ghost<MineField>,
    )
        requires
            dx < 3,
            dy < 3,
            !(dx == 1 && dy == 1),
            pre.grid_wf(),
            old(self).wf(),
            old(self).ncol == pre.ncol,
            old(self).nrow == pre.nrow,
            old(self).nmines == pre.nmines,
            old(self).tiles@.len() == pre.tiles@.len(),
            pre.in_bounds(x as int, y as int),
            pre.in_bounds(cx as int, cy as int),
            zero_reachable(pre, x as int, y as int, cx as int, cy as int),
            forall|i: int, j: int|
                pre.in_bounds(i, j) ==> (#[trigger] old(self).tile_at(i, j)).content
                    == pre.tile_at(i, j).content && old(self).tile_at(i, j).flagged == pre.tile_at(
                    i,
                    j,
                ).flagged,
            forall|i: int, j: int|
                pre.in_bounds(i, j) && pre.tile_at(i, j).probed ==> (#[trigger] old(self).tile_at(
                    i,
                    j,
                )).probed,
            forall|i: int, j: int|
                pre.in_bounds(i, j) && (#[trigger] old(self).tile_at(i, j)).probed ==> pre.tile_at(
                    i,
                    j,
                ).probed || in_reveal_region(pre, x as int, y as int, i, j),
        ensures
            final(self).wf(),
            final(self).ncol == old(self).ncol,
            final(self).nrow == old(self).nrow,
            final(self).nmines == old(self).nmines,
            final(self).tiles@.len() == old(self).tiles@.len(),
            forall|i: int, j: int|
                pre.in_bounds(i, j) ==> (#[trigger] final(self).tile_at(i, j)).content
                    == pre.tile_at(i, j).content && final(self).tile_at(i, j).flagged
                    == pre.tile_at(i, j).flagged,
            forall|i: int, j: int|
                pre.in_bounds(i, j) && (#[trigger] old(self).tile_at(i, j)).probed
                    ==> final(self).tile_at(i, j).probed,
            forall|i: int, j: int|
                pre.in_bounds(i, j) && !(i == cx as int + dx as int - 1 && j == cy as int + dy as int
                    - 1) ==> (#[trigger] final(self).tile_at(i, j)).probed == old(self).tile_at(
                    i,
                    j,
                ).probed,
            pre.in_bounds(cx as int + dx as int - 1, cy as int + dy as int - 1) && pre.tile_at(
                cx as int + dx as int - 1,
                cy as int + dy as int - 1,
            ).content != TileContent::Mine ==> final(self).tile_at(
                cx as int + dx as int - 1,
                cy as int + dy as int - 1,
            ).probed,
            forall|i: int, j: int|
                pre.in_bounds(i, j) && (#[trigger] final(self).tile_at(i, j)).probed
                    ==> pre.tile_at(i, j).probed || in_reveal_region(pre, x as int, y as int, i, j),
            final(stack)@.len() >= old(stack)@.len(),
            forall|n: int| 0 <= n < old(stack)@.len() ==> #[trigger] final(stack)@[n] == old(stack)@[n],
            forall|n: int|
                old(stack)@.len() <= n < final(stack)@.len() ==> pre.in_bounds(
                    (#[trigger] final(stack)@[n]).0 as int,
                    final(stack)@[n].1 as int,
                ) && open_zero(pre, final(stack)@[n].0 as int, final(stack)@[n].1 as int)
                    && zero_reachable(
                    pre,
                    x as int,
                    y as int,
                    final(stack)@[n].0 as int,
                    final(stack)@[n].1 as int,
                ) && final(self).tile_at(
                    final(stack)@[n].0 as int,
                    final(stack)@[n].1 as int,
                ).probed && final(stack)@[n].0 as int == cx as int + dx as int - 1
                    && final(stack)@[n].1 as int == cy as int + dy as int - 1,
            (pre.in_bounds(cx as int + dx as int - 1, cy as int + dy as int - 1) && pre.tile_at(
                cx as int + dx as int - 1,
                cy as int + dy as int - 1,
            ).content == TileContent::Zero && !old(self).tile_at(
                cx as int + dx as int - 1,
                cy as int + dy as int - 1,
            ).probed) ==> final(stack)@.len() > old(stack)@.len(),
            num_hidden(final(self).tiles@) <= num_hidden(old(self).tiles@),
            num_hidden(final(self).tiles@) == num_hidden(old(self).tiles@) ==> final(self).tiles@
                == old(self).tiles@ && final(stack)@ == old(stack)@,
    {
        let ghost prev = *old(self);
        let ocx = neighbor_coord(cx, self.ncol, dx);
        let ocy = neighbor_coord(cy, self.nrow, dy);
        if let (Some(ax), Some(ay)) = (ocx, ocy) {
            proof {
                vstd::std_specs::vec::axiom_spec_len(&self.tiles);
                lemma_idx_in_range(self.ncol as int, self.nrow as int, ax as int, ay as int);
            }
            let ai: usize = ax + ay * self.ncol;
            let ta = self.tiles[ai];
            proof {
                assert(ta == self.tile_at(ax as int, ay as int));
                assert(ta.content == pre.tile_at(ax as int, ay as int).content);
            }
            if !ta.probed {
                proof {
                    assert(!pre.tile_at(ax as int, ay as int).probed);
                    assert(coords_adjacent(cx as int, cy as int, ax as int, ay as int));
                }
                if matches!(ta.content, TileContent::Mine) {
                } else if matches!(ta.content, TileContent::Zero) {
                    proof {
                        assert(open_zero(pre, ax as int, ay as int));
                        let p = choose|p: Seq<(int, int)>|
                            #[trigger] zero_chain(pre, p) && p.len() > 0 && p[0] == (
                            x as int,
                            y as int,
                        ) && p.last() == (cx as int, cy as int);
                        let p2 = p.push((ax as int, ay as int));
                        assert forall|n: int| 0 <= n < p2.len() implies open_zero(
                            pre,
                            (#[trigger] p2[n]).0,
                            p2[n].1,
                        ) by {
                            if n < p.len() {
                                assert(p2[n] == p[n]);
                            } else {
                                assert(p2[n] == (ax as int, ay as int));
                            }
                        }
                        assert forall|n: int|
                            0 < n < p2.len() implies coords_adjacent(
                            p2[n - 1].0,
                            p2[n - 1].1,
                            (#[trigger] p2[n]).0,
                            p2[n].1,
                        ) by {
                            if n < p.len() {
                                assert(p2[n] == p[n]);
                                assert(p2[n - 1] == p[n - 1]);
                            } else {
                                assert(p2[n] == (ax as int, ay as int));
                                assert(p2[n - 1] == p.last());
                            }
                        }
                        assert(zero_chain(pre, p2));
                        assert(p2[0] == p[0]);
                        assert(p2.last() == (ax as int, ay as int));
                        assert(zero_reachable(pre, x as int, y as int, ax as int, ay as int));
                    }
                    let pr = self.probe_tile(ax, ay);
                    proof {
                        assert(pr.is_ok());
                        lemma_probe_update(pre, prev, *self, ax as int, ay as int);
                    }
                    stack.push((ax, ay));
                } else {
                    proof {
                        assert(in_reveal_region(pre, x as int, y as int, ax as int, ay as int));
                    }
                    let pr = self.probe_tile(ax, ay);
                    proof {
                        assert(pr.is_ok());
                        lemma_probe_update(pre, prev, *self, ax as int, ay as int);
                    }
                }
            }
        }
    }

    /// Reveals the tile at `(x, y)` and, when it is a hidden zero tile,
    /// floods outward: every hidden zero tile reachable through zero
    /// tiles is revealed, together with the numbered tiles bordering
    /// that region; mines stay hidden. Revealing an already-revealed
    /// tile is a no-op that reports the same outcome again. The
    /// expansion runs on an explicit worklist, never on the call stack.
    #[verifier::loop_isolation(false)]
    #[verifier::rlimit(100)]
    pub fn probe_chain(&mut self, x: usize, y: usize) -> (r: Result<RevealOutcome, FieldError>)
        requires
            old(self).wf(),
        ensures
            final(self).wf(),
            final(self).ncol == old(self).ncol,
            final(self).nrow == old(self).nrow,
            final(self).nmines == old(self).nmines,
            final(self).tiles@.len() == old(self).tiles@.len(),
            r.is_ok() <==> old(self).in_bounds(x as int, y as int),
            match r {
                Ok(o) => reveal_post(*old(self), *final(self), x as int, y as int, o),
                Err(e) => {
                    &&& e == FieldError::OutOfBounds
                    &&& final(self).tiles@ == old(self).tiles@
                    &&& final(self).ncleared == old(self).ncleared
                },
            },
    {
        if x >= self.ncol || y >= self.nrow {
            return Err(FieldError::OutOfBounds);
        }
        let ghost pre = *old(self);
        proof {
            vstd::std_specs::vec::axiom_spec_len(&self.tiles);
            lemma_idx_in_range(self.ncol as int, self.nrow as int, x as int, y as int);
        }
        let i0: usize = x + y * self.ncol;
        let t0 = self.tiles[i0];
        if t0.probed {
            return Ok(outcome_for(t0.content));
        }
        let pr = self.probe_tile(x, y);
        proof {
            assert(pr.is_ok());
            lemma_probe_update(pre, pre, *self, x as int, y as int);
        }
        if !matches!(t0.content, TileContent::Zero) {
            return Ok(outcome_for(t0.content));
        }
        let mut stack: Vec<(usize, usize)> = Vec::new();
        stack.push((x, y));
        proof {
            assert(open_zero(pre, x as int, y as int));
            let p0 = seq![(x as int, y as int)];
            assert(p0.len() == 1);
            assert(p0[0] == (x as int, y as int));
            assert(p0.last() == (x as int, y as int));
            assert(zero_chain(pre, p0));
            assert(zero_reachable(pre, x as int, y as int, x as int, y as int));
            assert(stack@.len() == 1);
            assert(stack@[0] == (x, y));
            assert forall|i: int, j: int|
                pre.in_bounds(i, j) && (#[trigger] self.tile_at(i, j)).probed implies pre.tile_at(
                i,
                j,
            ).probed || in_reveal_region(pre, x as int, y as int, i, j) by {}
            assert forall|i: int, j: int|
                zero_reachable(pre, x as int, y as int, i, j) && (#[trigger] self.tile_at(
                    i,
                    j,
                )).probed && !stack_has(stack@, i, j) implies neighbors_probed(
                pre,
                *self,
                i,
                j,
            ) by {
                assert(open_zero(pre, i, j));
                if i == x && j == y {
                    assert(stack@[0].0 == i && stack@[0].1 == j);
                    assert(stack_has(stack@, i, j));
                }
                assert(false);
            }
        }
        while stack.len() > 0
            invariant
                self.wf(),
                self.ncol == pre.ncol,
                self.nrow == pre.nrow,
                self.nmines == pre.nmines,
                self.tiles@.len() == pre.tiles@.len(),
                forall|i: int, j: int|
                    pre.in_bounds(i, j) ==> (#[trigger] self.tile_at(i, j)).content == pre.tile_at(
                        i,
                        j,
                    ).content && self.tile_at(i, j).flagged == pre.tile_at(i, j).flagged,
                forall|i: int, j: int|
                    pre.in_bounds(i, j) && pre.tile_at(i, j).probed ==> (#[trigger] self.tile_at(
                        i,
                        j,
                    )).probed,
                self.tile_at(x as int, y as int).probed,
                forall|n: int|
                    0 <= n < stack@.len() ==> pre.in_bounds(
                        (#[trigger] stack@[n]).0 as int,
                        stack@[n].1 as int,
                    ) && open_zero(pre, stack@[n].0 as int, stack@[n].1 as int) && zero_reachable(
                        pre,
                        x as int,
                        y as int,
                        stack@[n].0 as int,
                        stack@[n].1 as int,
                    ) && self.tile_at(stack@[n].0 as int, stack@[n].1 as int).probed,
                forall|i: int, j: int|
                    pre.in_bounds(i, j) && (#[trigger] self.tile_at(i, j)).probed ==> pre.tile_at(
                        i,
                        j,
                    ).probed || in_reveal_region(pre, x as int, y as int, i, j),
                forall|i: int, j: int|
                    zero_reachable(pre, x as int, y as int, i, j) && (#[trigger] self.tile_at(
                        i,
                        j,
                    )).probed && !stack_has(stack@, i, j) ==> neighbors_probed(pre, *self, i, j),
            decreases num_hidden(self.tiles@), stack@.len(),
        {
            let ghost st_before = stack@;
            let top = stack.pop().unwrap();
            let cx = top.0;
            let cy = top.1;
            let ghost st0 = stack@;
            let ghost hidden0 = num_hidden(self.tiles@);
            let ghost len0 = stack@.len();
            proof {
                assert(st_before[st_before.len() - 1] == top);
                assert(zero_reachable(pre, x as int, y as int, cx as int, cy as int));
                assert(open_zero(pre, cx as int, cy as int));
                assert forall|i: int, j: int|
                    zero_reachable(pre, x as int, y as int, i, j) && (#[trigger] self.tile_at(
                        i,
                        j,
                    )).probed && !stack_has(stack@, i, j) && !(i == cx && j == cy) implies neighbors_probed(
                    pre,
                    *self,
                    i,
                    j,
                ) by {
                    if stack_has(st_before, i, j) {
                        let n = choose|n: int|
                            0 <= n < st_before.len() && (#[trigger] st_before[n]).0 == i
                                && st_before[n].1 == j;
                        if n < st_before.len() - 1 {
                            assert(st0[n] == st_before[n]);
                            assert(stack_has(st0, i, j));
                        }
                        assert(false);
                    }
                }
            }
            let mut dy: usize = 0;
            while dy < 3
                invariant
                    dy <= 3,
                    self.wf(),
                    self.ncol == pre.ncol,
                    self.nrow == pre.nrow,
                    self.nmines == pre.nmines,
                    self.tiles@.len() == pre.tiles@.len(),
                    forall|i: int, j: int|
                        pre.in_bounds(i, j) ==> (#[trigger] self.tile_at(i, j)).content
                            == pre.tile_at(i, j).content && self.tile_at(i, j).flagged
                            == pre.tile_at(i, j).flagged,
                    forall|i: int, j: int|
                        pre.in_bounds(i, j) && pre.tile_at(i, j).probed ==> (
                        #[trigger] self.tile_at(i, j)).probed,
                    self.tile_at(x as int, y as int).probed,
                    forall|n: int|
                        0 <= n < stack@.len() ==> pre.in_bounds(
                            (#[trigger] stack@[n]).0 as int,
                            stack@[n].1 as int,
                        ) && open_zero(pre, stack@[n].0 as int, stack@[n].1 as int)
                            && zero_reachable(
                            pre,
                            x as int,
                            y as int,
                            stack@[n].0 as int,
                            stack@[n].1 as int,
                        ) && self.tile_at(stack@[n].0 as int, stack@[n].1 as int).probed,
                    forall|i: int, j: int|
                        pre.in_bounds(i, j) && (#[trigger] self.tile_at(i, j)).probed
                            ==> pre.tile_at(i, j).probed || in_reveal_region(
                            pre,
                            x as int,
                            y as int,
                            i,
                            j,
                        ),
                    forall|i: int, j: int|
                        zero_reachable(pre, x as int, y as int, i, j) && (#[trigger] self.tile_at(
                            i,
                            j,
                        )).probed && !stack_has(stack@, i, j) && !(i == cx && j == cy)
                            ==> neighbors_probed(pre, *self, i, j),
                    neighbors_probed_upto(pre, *self, cx as int, cy as int, 3 * dy),
                    num_hidden(self.tiles@) < hidden0 || (num_hidden(self.tiles@) == hidden0
                        && stack@.len() == len0),
                decreases 3 - dy,
            {
                let mut dx: usize = 0;
                while dx < 3
                    invariant
                        dx <= 3,
                        dy < 3,
                        self.wf(),
                        self.ncol == pre.ncol,
                        self.nrow == pre.nrow,
                        self.nmines == pre.nmines,
                        self.tiles@.len() == pre.tiles@.len(),
                        forall|i: int, j: int|
                            pre.in_bounds(i, j) ==> (#[trigger] self.tile_at(i, j)).content
                                == pre.tile_at(i, j).content && self.tile_at(i, j).flagged
                                == pre.tile_at(i, j).flagged,
                        forall|i: int, j: int|
                            pre.in_bounds(i, j) && pre.tile_at(i, j).probed ==> (
                            #[trigger] self.tile_at(i, j)).probed,
                        self.tile_at(x as int, y as int).probed,
                        forall|n: int|
                            0 <= n < stack@.len() ==> pre.in_bounds(
                                (#[trigger] stack@[n]).0 as int,
                                stack@[n].1 as int,
                            ) && open_zero(pre, stack@[n].0 as int, stack@[n].1 as int)
                                && zero_reachable(
                                pre,
                                x as int,
                                y as int,
                                stack@[n].0 as int,
                                stack@[n].1 as int,
                            ) && self.tile_at(stack@[n].0 as int, stack@[n].1 as int).probed,
                        forall|i: int, j: int|
                            pre.in_bounds(i, j) && (#[trigger] self.tile_at(i, j)).probed
                                ==> pre.tile_at(i, j).probed || in_reveal_region(
                                pre,
                                x as int,
                                y as int,
                                i,
                                j,
                            ),
                        forall|i: int, j: int|
                            zero_reachable(pre, x as int, y as int, i, j) && (
                            #[trigger] self.tile_at(i, j)).probed && !stack_has(stack@, i, j) && !(
                            i == cx && j == cy) ==> neighbors_probed(pre, *self, i, j),
                        neighbors_probed_upto(pre, *self, cx as int, cy as int, 3 * dy + dx),
                        num_hidden(self.tiles@) < hidden0 || (num_hidden(self.tiles@) == hidden0
                            && stack@.len() == len0),
                    decreases 3 - dx,
                {
                    if !(dx == 1 && dy == 1) {
                        let ghost self_b = *self;
                        let ghost st_b = stack@;
                        self.chain_neighbor(&mut stack, cx, cy, dx, dy, x, y, Ghost(pre));
                        proof {
                            let az = (cx as int + dx as int - 1, cy as int + dy as int - 1);
                            assert forall|i: int, j: int|
                                zero_reachable(pre, x as int, y as int, i, j) && (
                                #[trigger] self.tile_at(i, j)).probed && !stack_has(stack@, i, j)
                                    && !(i == cx && j == cy) implies neighbors_probed(
                                pre,
                                *self,
                                i,
                                j,
                            ) by {
                                if stack_has(st_b, i, j) {
                                    let n = choose|n: int|
                                        0 <= n < st_b.len() && (#[trigger] st_b[n]).0 == i
                                            && st_b[n].1 == j;
                                    assert(stack@[n] == st_b[n]);
                                    assert(stack_has(stack@, i, j));
                                    assert(false);
                                }
                                assert(open_zero(pre, i, j));
                                if self_b.tile_at(i, j).probed {
                                    assert(neighbors_probed(pre, self_b, i, j));
                                    assert forall|u: int, v: int|
                                        pre.in_bounds(u, v) && coords_adjacent(i, j, u, v)
                                            && pre.tile_at(u, v).content != TileContent::Mine implies (
                                        #[trigger] self.tile_at(u, v)).probed by {
                                        assert(self_b.tile_at(u, v).probed);
                                    }
                                } else {
                                    assert(i == az.0 && j == az.1);
                                    assert(stack@.len() > st_b.len());
                                    assert(stack@[st_b.len() as int].0 as int == i && stack@[st_b.len() as int].1 as int == j);
                                    assert(stack_has(stack@, i, j));
                                    assert(false);
                                }
                            }
                            assert forall|u: int, v: int|
                                pre.in_bounds(u, v) && coords_adjacent(cx as int, cy as int, u, v)
                                    && offset_index(cx as int, cy as int, u, v) < 3 * dy + dx + 1
                                    && pre.tile_at(u, v).content != TileContent::Mine implies (
                                #[trigger] self.tile_at(u, v)).probed by {
                                if offset_index(cx as int, cy as int, u, v) < 3 * dy + dx {
                                    assert(self_b.tile_at(u, v).probed);
                                } else {
                                    assert(u == az.0 && v == az.1);
                                }
                            }
                        }
                    } else {
                        proof {
                            assert forall|u: int, v: int|
                                pre.in_bounds(u, v) && coords_adjacent(cx as int, cy as int, u, v)
                                    && offset_index(cx as int, cy as int, u, v) < 3 * dy + dx + 1
                                    && pre.tile_at(u, v).content != TileContent::Mine implies (
                                #[trigger] self.tile_at(u, v)).probed by {}
                        }
                    }
                    dx += 1;
                }
                dy += 1;
            }
            proof {
                assert forall|u: int, v: int|
                    pre.in_bounds(u, v) && coords_adjacent(cx as int, cy as int, u, v)
                        && pre.tile_at(u, v).content != TileContent::Mine implies (
                    #[trigger] self.tile_at(u, v)).probed by {
                    assert(offset_index(cx as int, cy as int, u, v) < 9);
                }
                assert(neighbors_probed(pre, *self, cx as int, cy as int));
                lemma_count_matching_bounds(self.tiles@, |t: Tile| is_hidden_tile(t));
            }
        }
        proof {
            assert forall|i: int, j: int|
                zero_reachable(pre, x as int, y as int, i, j) && (#[trigger] self.tile_at(
                    i,
                    j,
                )).probed implies neighbors_probed(pre, *self, i, j) by {}
            lemma_region_probed(pre, *self, x as int, y as int);
            assert forall|i: int, j: int|
                pre.in_bounds(i, j) implies ((#[trigger] self.tile_at(i, j)).probed
                <==> pre.tile_at(i, j).probed || in_reveal_region(
                pre,
                x as int,
                y as int,
                i,
                j,
            )) by {}
        }
        Ok(outcome_for(t0.content))
    }

    /// Whether the game is won: every non-mine tile has been revealed.
    pub fn is_won(&self) -> (r: bool)
        requires
            self.wf(),
        ensures
            r == (self.ncleared + self.nmines == self.ncol * self.nrow),
    {
        self.ncleared == self.tiles.len() - self.nmines
    }
}

/// Position of the offset `(i - x + 1, j - y + 1)` in the fixed order in
/// which a Moore-neighborhood sweep around `(x, y)` visits cells; the
/// center `(x, y)` itself is offset 4.
spec fn offset_index(x: int, y: int, i: int, j: int) -> int {
    (j - y + 1) * 3 + (i - x + 1)
}

/// Whether a sweep around `(x, y)` that has handled the first `k` of the
/// nine offsets has already incremented the count of tile `(i, j)`:
/// mines keep their content, everything else steps up by one.
spec fn bump_applies(mid: MineField, x: int, y: int, k: int, i: int, j: int) -> bool {
    &&& coords_adjacent(x, y, i, j)
    &&& offset_index(x, y, i, j) < k
    &&& mid.tile_at(i, j).content != TileContent::Mine
}

/// The tile `(i, j)` after the sweep has handled the first `k` offsets,
/// starting from the state `mid` in which the new mine is already set.
spec fn bumped_tile(mid: MineField, x: int, y: int, k: int, i: int, j: int) -> Tile {
    let t = mid.tile_at(i, j);
    if bump_applies(mid, x, y, k, i, j) {
        Tile { content: TileContent::of_count(t.content.count() + 1), ..t }
    } else {
        t
    }
}

/// The whole field after the sweep has handled the first `k` offsets.
spec fn bumped(mid: MineField, post: MineField, x: int, y: int, k: int) -> bool {
    &&& post.ncol == mid.ncol
    &&& post.nrow == mid.nrow
    &&& post.nmines == mid.nmines
    &&& post.ncleared == mid.ncleared
    &&& post.tiles@.len() == mid.tiles@.len()
    &&& forall|i: int, j: int|
        mid.in_bounds(i, j) ==> #[trigger] post.tile_at(i, j) == bumped_tile(mid, x, y, k, i, j)
}

/// A tile next to a known non-mine cell has at most seven mines around
/// it: its neighborhood holds at most eight cells, one of which is clear.
proof fn lemma_adj_le_seven(f: MineField, x: int, y: int, i: int, j: int)
    requires
        coords_adjacent(x, y, i, j),
        !f.mine_at(x, y),
    ensures
        0 <= f.adj_mines(i, j) <= 7,
{
}

/// Planting one new mine at `(x, y)` raises each tile's neighborhood
/// count by exactly one around the mine and leaves it unchanged elsewhere.
proof fn lemma_adj_after_mine(pre: MineField, post: MineField, x: int, y: int, i: int, j: int)
    requires
        pre.ncol == post.ncol,
        pre.nrow == post.nrow,
        forall|u: int, v: int|
            pre.in_bounds(u, v) ==> (#[trigger] post.mine_at(u, v) <==> pre.mine_at(u, v) || (u
                == x && v == y)),
        pre.in_bounds(x, y),
        !pre.mine_at(x, y),
    ensures
        post.adj_mines(i, j) == pre.adj_mines(i, j) + b2i(coords_adjacent(x, y, i, j)),
{
}

/// After the full sweep (all nine offsets) the board's adjacency counts
/// are consistent again, the mine set grew by exactly `(x, y)`, and no
/// revealed or flagged state moved.
#[verifier::rlimit(50)]
proof fn lemma_place_finish(orig: MineField, mid: MineField, post: MineField, x: int, y: int)
    requires
        orig.grid_wf(),
        orig.counts_ok(),
        orig.in_bounds(x, y),
        !orig.mine_at(x, y),
        mid.ncol == orig.ncol,
        mid.nrow == orig.nrow,
        mid.tiles@ == orig.tiles@.update(
            orig.idx(x, y),
            Tile { content: TileContent::Mine, ..orig.tile_at(x, y) },
        ),
        bumped(mid, post, x, y, 9),
    ensures
        post.counts_ok(),
        forall|i: int, j: int|
            orig.in_bounds(i, j) ==> (#[trigger] post.mine_at(i, j) <==> orig.mine_at(i, j) || (i
                == x && j == y)),
        forall|i: int, j: int|
            orig.in_bounds(i, j) ==> (#[trigger] post.tile_at(i, j)).probed == orig.tile_at(
                i,
                j,
            ).probed && post.tile_at(i, j).flagged == orig.tile_at(i, j).flagged,
{
    lemma_idx_in_range(orig.ncol as int, orig.nrow as int, x, y);
    assert forall|i: int, j: int|
        orig.in_bounds(i, j) implies (#[trigger] post.mine_at(i, j) <==> orig.mine_at(i, j) || (i
        == x && j == y)) && post.tile_at(i, j).probed == orig.tile_at(i, j).probed && post.tile_at(
        i,
        j,
    ).flagged == orig.tile_at(i, j).flagged by {
        lemma_idx_in_range(orig.ncol as int, orig.nrow as int, i, j);
        assert(post.tile_at(i, j) == bumped_tile(mid, x, y, 9, i, j));
        if !(i == x && j == y) {
            lemma_idx_injective(mid.ncol as int, i, j, x, y);
            assert(orig.tiles@.update(
                orig.idx(x, y),
                Tile { content: TileContent::Mine, ..orig.tile_at(x, y) },
            )[orig.idx(i, j)] == orig.tiles@[orig.idx(i, j)]);
        }
    }
    assert forall|i: int, j: int|
        post.in_bounds(i, j) && !post.mine_at(i, j) implies (#[trigger] post.tile_at(
        i,
        j,
    )).content.count() == post.adj_mines(i, j) by {
        lemma_idx_in_range(orig.ncol as int, orig.nrow as int, i, j);
        lemma_adj_after_mine(orig, post, x, y, i, j);
        assert(post.tile_at(i, j) == bumped_tile(mid, x, y, 9, i, j));
        if !(i == x && j == y) {
            lemma_idx_injective(mid.ncol as int, i, j, x, y);
        }
        if coords_adjacent(x, y, i, j) {
            lemma_adj_le_seven(orig, x, y, i, j);
        }
    }
}

/// The outcome that revealing a tile of content `c` reports, as a value.
fn outcome_for(c: TileContent) -> (r: RevealOutcome)
    ensures
        r == outcome_of(c),
{
    if matches!(c, TileContent::Mine) {
        RevealOutcome::Detonated
    } else {
        RevealOutcome::Revealed(c)
    }
}

/// Two fields of the same shape whose tiles carry the same contents
/// have the same mines and the same neighborhood counts.
proof fn lemma_same_contents(pre: MineField, post: MineField)
    requires
        pre.ncol == post.ncol,
        pre.nrow == post.nrow,
        pre.grid_wf(),
        post.tiles@.len() == pre.tiles@.len(),
        forall|n: int|
            0 <= n < pre.tiles@.len() ==> (#[trigger] post.tiles@[n]).content
                == pre.tiles@[n].content,
        pre.counts_ok(),
    ensures
        post.counts_ok(),
        forall|u: int, v: int| #[trigger] post.mine_at(u, v) == pre.mine_at(u, v),
{
    assert forall|u: int, v: int| #[trigger] post.mine_at(u, v) == pre.mine_at(u, v) by {
        if pre.in_bounds(u, v) {
            lemma_idx_in_range(pre.ncol as int, pre.nrow as int, u, v);
        }
    }
    assert forall|x: int, y: int|
        post.in_bounds(x, y) && !post.mine_at(x, y) implies post.tile_at(x, y).content.count()
        == #[trigger] post.adj_mines(x, y) by {
        lemma_idx_in_range(pre.ncol as int, pre.nrow as int, x, y);
        assert(pre.adj_mines(x, y) == post.adj_mines(x, y));
    }
}

/// Whether the worklist `st` still holds the position `(i, j)`.
spec fn stack_has(st: Seq<(usize, usize)>, i: int, j: int) -> bool {
    exists|n: int| 0 <= n < st.len() && (#[trigger] st[n]).0 == i && st[n].1 == j
}

/// Every safe in-bounds neighbor of `(i, j)` is revealed in `f`
/// (contents judged in `pre`, where they never change anyway).
spec fn neighbors_probed(pre: MineField, f: MineField, i: int, j: int) -> bool {
    forall|u: int, v: int|
        pre.in_bounds(u, v) && coords_adjacent(i, j, u, v) && pre.tile_at(u, v).content
            != TileContent::Mine ==> (#[trigger] f.tile_at(u, v)).probed
}

/// As `neighbors_probed`, but only for the first `k` offsets of the
/// neighborhood sweep around `(i, j)`.
spec fn neighbors_probed_upto(pre: MineField, f: MineField, i: int, j: int, k: int) -> bool {
    forall|u: int, v: int|
        pre.in_bounds(u, v) && coords_adjacent(i, j, u, v) && offset_index(i, j, u, v) < k
            && pre.tile_at(u, v).content != TileContent::Mine ==> (#[trigger] f.tile_at(
            u,
            v,
        )).probed
}

/// Walking any chain of hidden zero tiles from a revealed origin, in a
/// state where every revealed reachable zero tile has all its safe
/// neighbors revealed, ends on a revealed tile.
proof fn lemma_chain_probed(
    pre: MineField,
    post: MineField,
    x0: int,
    y0: int,
    p: Seq<(int, int)>,
)
    requires
        post.tile_at(x0, y0).probed,
        forall|i: int, j: int|
            zero_reachable(pre, x0, y0, i, j) && (#[trigger] post.tile_at(i, j)).probed
                ==> neighbors_probed(pre, post, i, j),
        zero_chain(pre, p),
        p.len() > 0,
        p[0] == (x0, y0),
    ensures
        post.tile_at(p.last().0, p.last().1).probed,
    decreases p.len(),
{
    if p.len() > 1 {
        let q = p.drop_last();
        assert forall|n: int| 0 <= n < q.len() implies open_zero(
            pre,
            (#[trigger] q[n]).0,
            q[n].1,
        ) by {
            assert(q[n] == p[n]);
        }
        assert forall|n: int|
            0 < n < q.len() implies coords_adjacent(
            q[n - 1].0,
            q[n - 1].1,
            (#[trigger] q[n]).0,
            q[n].1,
        ) by {
            assert(q[n] == p[n]);
            assert(q[n - 1] == p[n - 1]);
        }
        assert(zero_chain(pre, q));
        lemma_chain_probed(pre, post, x0, y0, q);
        let c = q.last();
        assert(zero_reachable(pre, x0, y0, c.0, c.1));
        assert(neighbors_probed(pre, post, c.0, c.1));
        let e = p.last();
        assert(open_zero(pre, e.0, e.1));
        assert(coords_adjacent(c.0, c.1, e.0, e.1));
    }
}

/// With the closure property of `lemma_chain_probed`, the whole reveal
/// region of the origin is revealed.
proof fn lemma_region_probed(pre: MineField, post: MineField, x0: int, y0: int)
    requires
        post.tile_at(x0, y0).probed,
        forall|i: int, j: int|
            zero_reachable(pre, x0, y0, i, j) && (#[trigger] post.tile_at(i, j)).probed
                ==> neighbors_probed(pre, post, i, j),
    ensures
        forall|i: int, j: int|
            in_reveal_region(pre, x0, y0, i, j) ==> (#[trigger] post.tile_at(i, j)).probed,
{
    assert forall|i: int, j: int|
        in_reveal_region(pre, x0, y0, i, j) implies (#[trigger] post.tile_at(i, j)).probed by {
        if zero_reachable(pre, x0, y0, i, j) {
            let p = choose|p: Seq<(int, int)>|
                #[trigger] zero_chain(pre, p) && p.len() > 0 && p[0] == (x0, y0) && p.last() == (
                i,
                j,
            );
            lemma_chain_probed(pre, post, x0, y0, p);
        } else {
            let (u, v) = choose|u: int, v: int|
                #[trigger] zero_reachable(pre, x0, y0, u, v) && coords_adjacent(u, v, i, j);
            let p = choose|p: Seq<(int, int)>|
                #[trigger] zero_chain(pre, p) && p.len() > 0 && p[0] == (x0, y0) && p.last() == (
                u,
                v,
            );
            lemma_chain_probed(pre, post, x0, y0, p);
            assert(post.tile_at(u, v).probed);
            assert(neighbors_probed(pre, post, u, v));
        }
    }
}

/// Flood-fill reveal of a hidden zero tile uncovers exactly the tiles
/// of its reveal region and never a mine: every mine keeps the revealed
/// state it had before the call.
pub proof fn lemma_flood_fill_region(
    pre: MineField,
    post: MineField,
    x: int,
    y: int,
    o: RevealOutcome,
)
    requires
        reveal_post(pre, post, x, y, o),
        open_zero(pre, x, y),
    ensures
        forall|i: int, j: int|
            pre.in_bounds(i, j) ==> ((#[trigger] post.tile_at(i, j)).probed <==> pre.tile_at(
                i,
                j,
            ).probed || in_reveal_region(pre, x, y, i, j)),
        forall|i: int, j: int|
            pre.mine_at(i, j) ==> (#[trigger] post.tile_at(i, j)).probed == pre.tile_at(
                i,
                j,
            ).probed,
{
    assert forall|i: int, j: int|
        pre.mine_at(i, j) implies (#[trigger] post.tile_at(i, j)).probed == pre.tile_at(
        i,
        j,
    ).probed by {
        if in_reveal_region(pre, x, y, i, j) {
            if zero_reachable(pre, x, y, i, j) {
                let p = choose|p: Seq<(int, int)>|
                    #[trigger] zero_chain(pre, p) && p.len() > 0 && p[0] == (x, y) && p.last()
                        == (i, j);
                assert(open_zero(pre, p.last().0, p.last().1));
            }
            assert(false);
        }
    }
}

/// Revealing the single hidden tile `(ax, ay)` changes that tile's
/// revealed state and nothing else: contents and flags stay, all other
/// tiles stay, and exactly one tile leaves the hidden count.
proof fn lemma_probe_update(pre: MineField, a: MineField, b: MineField, ax: int, ay: int)
    requires
        pre.grid_wf(),
        a.ncol == pre.ncol,
        a.nrow == pre.nrow,
        a.tiles@.len() == pre.tiles@.len(),
        b.ncol == a.ncol,
        b.nrow == a.nrow,
        pre.in_bounds(ax, ay),
        !a.tile_at(ax, ay).probed,
        b.tiles@ == probe_marked(a.tiles@, a.ncol as int, ax, ay),
        forall|i: int, j: int|
            pre.in_bounds(i, j) ==> (#[trigger] a.tile_at(i, j)).content == pre.tile_at(
                i,
                j,
            ).content && a.tile_at(i, j).flagged == pre.tile_at(i, j).flagged,
    ensures
        b.tiles@.len() == a.tiles@.len(),
        forall|i: int, j: int|
            pre.in_bounds(i, j) ==> (#[trigger] b.tile_at(i, j)).content == pre.tile_at(
                i,
                j,
            ).content && b.tile_at(i, j).flagged == pre.tile_at(i, j).flagged,
        b.tile_at(ax, ay).probed,
        forall|i: int, j: int|
            pre.in_bounds(i, j) && !(i == ax && j == ay) ==> (#[trigger] b.tile_at(i, j)).probed
                == a.tile_at(i, j).probed,
        num_hidden(b.tiles@) == num_hidden(a.tiles@) - 1,
{
    lemma_idx_in_range(pre.ncol as int, pre.nrow as int, ax, ay);
    let n0 = a.idx(ax, ay);
    let tp = Tile { probed: true, ..a.tiles@[n0] };
    assert(b.tiles@ == a.tiles@.update(n0, tp));
    lemma_count_matching_update(a.tiles@, |t: Tile| is_hidden_tile(t), n0, tp);
    assert forall|i: int, j: int|
        pre.in_bounds(i, j) implies (#[trigger] b.tile_at(i, j)).content == pre.tile_at(
        i,
        j,
    ).content && b.tile_at(i, j).flagged == pre.tile_at(i, j).flagged && (!(i == ax && j == ay)
        ==> b.tile_at(i, j).probed == a.tile_at(i, j).probed) by {
        lemma_idx_in_range(pre.ncol as int, pre.nrow as int, i, j);
        if i == ax && j == ay {
            assert(a.tiles@.update(n0, tp)[n0] == tp);
        } else {
            lemma_idx_injective(pre.ncol as int, i, j, ax, ay);
            assert(a.tiles@.update(n0, tp)[a.idx(i, j)] == a.tiles@[a.idx(i, j)]);
        }
    }
    assert(a.tiles@.update(n0, tp)[n0] == tp);
}

/// The in-bounds neighbor coordinate `base + d - 1` (for `d` in `0..3`),
/// or `None` when it falls off the grid edge.
fn neighbor_coord(base: usize, limit: usize, d: usize) -> (r: Option<usize>)
    requires
        base < limit,
        d < 3,
    ensures
        match r {
            Some(c) => c == base as int + d as int - 1 && c < limit,
            None => base as int + d as int - 1 < 0 || base as int + d as int - 1 >= limit,
        },
{
    if d == 0 {
        if base == 0 {
            None
        } else {
            Some(base - 1)
        }
    } else if d == 1 {
        Some(base)
    } else {
        if base + 1 < limit {
            Some(base + 1)
        } else {
            None
        }
    }
}

/// Splitting a linear tile index into its column and row lands on the
/// grid and reassembles to the same index.
proof fn lemma_div_mod_grid(ncol: int, nrow: int, t: int)
    by (nonlinear_arith)
    requires
        ncol >= 1,
        nrow >= 1,
        0 <= t < ncol * nrow,
    ensures
        0 <= t % ncol < ncol,
        0 <= t / ncol < nrow,
        (t % ncol) + (t / ncol) * ncol == t,
{
}

/// Relies on `rand::Rng::gen_range` over `0..n`: a uniformly sampled
/// index in `[0, n)`. The range is non-empty by the precondition, so the
/// call cannot panic; nothing more is promised of a random draw.
#[verifier::external_body]
fn random_index(n: usize) -> (r: usize)
    requires
        n > 0,
    ensures
        r < n,
{
    rand::thread_rng().gen_range(0..n)
}

/// A field whose tiles all hold a zero count has no mines and consistent
/// adjacency counts.
proof fn lemma_fresh_field(f: MineField)
    requires
        f.grid_wf(),
        forall|m: int|
            0 <= m < f.tiles@.len() ==> (#[trigger] f.tiles@[m]).content == TileContent::Zero,
    ensures
        forall|u: int, v: int| !(#[trigger] f.mine_at(u, v)),
        f.counts_ok(),
{
    assert forall|u: int, v: int| !(#[trigger] f.mine_at(u, v)) by {
        if f.in_bounds(u, v) {
            lemma_idx_in_range(f.ncol as int, f.nrow as int, u, v);
        }
    }
    assert forall|x: int, y: int|
        f.in_bounds(x, y) && !f.mine_at(x, y) implies f.tile_at(x, y).content.count()
        == #[trigger] f.adj_mines(x, y) by {
        lemma_idx_in_range(f.ncol as int, f.nrow as int, x, y);
    }
}

/// `(x, y)` maps into the tile vector, and the index arithmetic stays
/// inside the machine range.
proof fn lemma_idx_in_range(ncol: int, nrow: int, x: int, y: int)
    by (nonlinear_arith)
    requires
        0 <= x < ncol,
        0 <= y < nrow,
    ensures
        0 <= x + y * ncol < ncol * nrow,
{
}

/// Row-major indexing is injective over the grid.
proof fn lemma_idx_injective(ncol: int, x1: int, y1: int, x2: int, y2: int)
    by (nonlinear_arith)
    requires
        0 <= x1 < ncol,
        0 <= x2 < ncol,
    ensures
        (x1 + y1 * ncol == x2 + y2 * ncol) ==> (x1 == x2 && y1 == y2),
{
}

} // verus!
