//! Territory propagation engine and turn controller: the fixed-point
//! flood-capture that spreads a side's ownership after a color choice, and
//! the validation of a proposed color.

use crate::board::{grid_wf, recolor_spec, Block, Filler, OwnedBy, AI_SEED, PLAYER_SEED};
use crate::coords::{
    east_of, in_grid, is_adjacent, lemma_adjacent_cases, lemma_neighbors_adjacent, north_of,
    south_of, west_of, COLORS_NUM, GRID_SIZE,
};
use crate::coords::index_to_point;
use vstd::prelude::*;

verus! {

/// Why a proposed color was rejected: outside the palette, or currently
/// held by one of the two sides.
#[derive(Clone, Copy, PartialEq, Eq, Structural, Debug)]
pub enum MoveError {
    OutOfRangeColor,
    ForbiddenColor,
}

/// Cell `i` is owned by `side` in grid `g`.
pub open spec fn owns(g: Seq<Block>, side: OwnedBy, i: int) -> bool {
    in_grid(i) && g[i].owned_by == side
}

/// Cell `i` is unclaimed and already carries color `c`, so a pass of the
/// engine may capture it when it borders the region.
pub open spec fn capturable(g: Seq<Block>, c: u8, i: int) -> bool {
    in_grid(i) && g[i].owned_by == OwnedBy::Nobody && g[i].color == c
}

/// A chain of capturable cells, pairwise adjacent, whose first cell borders
/// the region of `side`: the justification for capturing its last cell.
pub open spec fn is_capture_path(g: Seq<Block>, side: OwnedBy, c: u8, p: Seq<int>) -> bool {
    &&& p.len() >= 1
    &&& (forall|k: int| 0 <= k < p.len() ==> capturable(g, c, #[trigger] p[k]))
    &&& (forall|k: int| 0 <= k < p.len() - 1 ==> is_adjacent(#[trigger] p[k], p[k + 1]))
    &&& (exists|s: int| owns(g, side, s) && is_adjacent(s, p[0]))
}

/// Cell `i` is reachable from the region of `side` through a chain of
/// adjacent unclaimed cells that all already carry color `c`: exactly the
/// cells that saturation captures.
pub open spec fn reaches(g: Seq<Block>, side: OwnedBy, c: u8, i: int) -> bool {
    exists|p: Seq<int>| is_capture_path(g, side, c, p) && p.last() == i
}

/// No unclaimed cell of color `c` borders the region of `side`: one more
/// pass of the engine would capture nothing.
pub open spec fn quiescent(g: Seq<Block>, side: OwnedBy, c: u8) -> bool {
    forall|i: int, j: int|
        owns(g, side, i) && #[trigger] is_adjacent(i, j) ==> !capturable(g, c, j)
}

/// `g2` is the saturation of `g` for `side` and color `c`: colors are kept,
/// the side's region is extended by exactly the reachable cells, every
/// other cell keeps its owner, and the result is a fixed point.
pub open spec fn saturates_to(g: Seq<Block>, side: OwnedBy, c: u8, g2: Seq<Block>) -> bool {
    &&& g.len() == GRID_SIZE
    &&& g2.len() == GRID_SIZE
    &&& (forall|i: int| in_grid(i) ==> (#[trigger] g2[i]).color == g[i].color)
    &&& (forall|i: int|
        in_grid(i) ==> ((#[trigger] g2[i]).owned_by == side <==> (g[i].owned_by == side || reaches(
            g,
            side,
            c,
            i,
        ))))
    &&& (forall|i: int|
        in_grid(i) && (#[trigger] g2[i]).owned_by != side ==> g2[i].owned_by == g[i].owned_by)
    &&& quiescent(g2, side, c)
}

/// `g2` differs from `g1` only in that some unclaimed cells were captured
/// by `side`, their colors kept.
spec fn grows_by_capture(g1: Seq<Block>, g2: Seq<Block>, side: OwnedBy) -> bool {
    &&& g1.len() == g2.len()
    &&& (forall|k: int|
        0 <= k < g1.len() && #[trigger] g2[k] != g1[k] ==> g1[k].owned_by == OwnedBy::Nobody
            && g2[k] == (Block { color: g1[k].color, owned_by: side }))
}

/// The number of unclaimed cells among the first `n` cells of `g`.
spec fn count_unclaimed(g: Seq<Block>, n: int) -> nat
    decreases n,
{
    if n <= 0 {
        0
    } else {
        count_unclaimed(g, n - 1) + if g[n - 1].owned_by == OwnedBy::Nobody {
            1nat
        } else {
            0nat
        }
    }
}

proof fn lemma_count_congruence(g1: Seq<Block>, g2: Seq<Block>, n: int)
    requires
        forall|k: int| 0 <= k < n ==> g1[k] == g2[k],
    ensures
        count_unclaimed(g1, n) == count_unclaimed(g2, n),
    decreases n,
{
    if n > 0 {
        lemma_count_congruence(g1, g2, n - 1);
    }
}

proof fn lemma_count_update(g: Seq<Block>, j: int, b: Block, n: int)
    requires
        0 <= j < n,
        n <= g.len(),
        g[j].owned_by == OwnedBy::Nobody,
        b.owned_by != OwnedBy::Nobody,
    ensures
        count_unclaimed(g.update(j, b), n) + 1 == count_unclaimed(g, n),
    decreases n,
{
    if j == n - 1 {
        assert(forall|k: int| 0 <= k < n - 1 ==> g.update(j, b)[k] == g[k]);
        lemma_count_congruence(g.update(j, b), g, n - 1);
    } else {
        lemma_count_update(g, j, b, n - 1);
    }
}

proof fn lemma_count_bounds(g: Seq<Block>, n: int)
    requires
        n >= 0,
    ensures
        count_unclaimed(g, n) <= n,
    decreases n,
{
    if n > 0 {
        lemma_count_bounds(g, n - 1);
    }
}

proof fn lemma_count_le(g1: Seq<Block>, g2: Seq<Block>, n: int)
    requires
        forall|k: int|
            0 <= k < n && (#[trigger] g2[k]).owned_by == OwnedBy::Nobody ==> g1[k].owned_by
                == OwnedBy::Nobody,
    ensures
        count_unclaimed(g2, n) <= count_unclaimed(g1, n),
    decreases n,
{
    if n > 0 {
        lemma_count_le(g1, g2, n - 1);
    }
}

proof fn lemma_count_lt(g1: Seq<Block>, g2: Seq<Block>, n: int, m: int)
    requires
        forall|k: int|
            0 <= k < n && (#[trigger] g2[k]).owned_by == OwnedBy::Nobody ==> g1[k].owned_by
                == OwnedBy::Nobody,
        0 <= m < n,
        g1[m].owned_by == OwnedBy::Nobody,
        g2[m].owned_by != OwnedBy::Nobody,
    ensures
        count_unclaimed(g2, n) < count_unclaimed(g1, n),
    decreases n,
{
    if m == n - 1 {
        lemma_count_le(g1, g2, n - 1);
    } else {
        lemma_count_lt(g1, g2, n - 1, m);
    }
}

/// A capturable cell adjacent to an owned or reachable cell is itself
/// reachable: the step that justifies each single capture.
proof fn lemma_reach_step(g: Seq<Block>, side: OwnedBy, c: u8, i: int, j: int)
    requires
        owns(g, side, i) || reaches(g, side, c, i),
        is_adjacent(i, j),
        capturable(g, c, j),
    ensures
        reaches(g, side, c, j),
{
    if owns(g, side, i) {
        let p = seq![j];
        assert(p[0] == j && p.last() == j);
        assert(is_capture_path(g, side, c, p));
    } else {
        let p0 = choose|p: Seq<int>| is_capture_path(g, side, c, p) && p.last() == i;
        let s = choose|s: int| owns(g, side, s) && is_adjacent(s, p0[0]);
        let p = p0.push(j);
        assert(p[p.len() - 1] == j && p.last() == j);
        assert(forall|k: int| 0 <= k < p0.len() ==> #[trigger] p[k] == p0[k]);
        assert(p[p0.len() - 1] == p0.last());
        assert(owns(g, side, s) && is_adjacent(s, p[0]));
        assert(is_capture_path(g, side, c, p));
    }
}

/// Every cell with a capture path in `g` is owned in any quiescent grid
/// `gf` that contains the region of `g` and kept its colors: quiescence
/// means saturation is complete.
proof fn lemma_path_captured(g: Seq<Block>, gf: Seq<Block>, side: OwnedBy, c: u8, p: Seq<int>)
    requires
        gf.len() == GRID_SIZE,
        is_capture_path(g, side, c, p),
        forall|k: int|
            in_grid(k) && g[k].owned_by == side ==> (#[trigger] gf[k]).owned_by == side,
        forall|k: int|
            in_grid(k) && (#[trigger] gf[k]).owned_by != g[k].owned_by ==> g[k].owned_by
                == OwnedBy::Nobody && gf[k].owned_by == side,
        forall|k: int| in_grid(k) ==> (#[trigger] gf[k]).color == g[k].color,
        quiescent(gf, side, c),
    ensures
        owns(gf, side, p.last()),
    decreases p.len(),
{
    let i = p.last();
    assert(capturable(g, c, i));
    if p.len() == 1 {
        let s = choose|s: int| owns(g, side, s) && is_adjacent(s, p[0]);
        assert(owns(gf, side, s));
        if !owns(gf, side, i) {
            assert(gf[i].owned_by == g[i].owned_by);
            assert(capturable(gf, c, i));
            assert(false);
        }
    } else {
        let q = p.drop_last();
        assert(forall|k: int| 0 <= k < q.len() ==> #[trigger] q[k] == p[k]);
        let s = choose|s: int| owns(g, side, s) && is_adjacent(s, p[0]);
        assert(owns(g, side, s) && is_adjacent(s, q[0]));
        assert(is_capture_path(g, side, c, q));
        lemma_path_captured(g, gf, side, c, q);
        assert(owns(gf, side, p[p.len() - 2]));
        assert(is_adjacent(p[p.len() - 2], p[p.len() - 1]));
        if !owns(gf, side, i) {
            assert(gf[i].owned_by == g[i].owned_by);
            assert(capturable(gf, c, i));
            assert(false);
        }
    }
}

impl Filler {
    /// Expands the region of `side`, freshly recolored to `new_color`, to
    /// the fixed point: every unclaimed cell reachable through a chain of
    /// adjacent unclaimed cells that already carry `new_color` is captured,
    /// and nothing else changes. Runs pass after pass until a pass captures
    /// zero cells.
    #[verifier::loop_isolation(false)]
    #[verifier::rlimit(60)]
    pub fn saturate(&mut self, side: OwnedBy, new_color: u8)
        requires
            old(self)@.len() == GRID_SIZE,
            side != OwnedBy::Nobody,
        ensures
            saturates_to(old(self)@, side, new_color, final(self)@),
    {
        let ghost g0 = self.game_grid@;
        let mut progressing = true;
        while progressing
            invariant
                self.game_grid@.len() == GRID_SIZE,
                grows_by_capture(g0, self.game_grid@, side),
                forall|k: int|
                    in_grid(k) && (#[trigger] self.game_grid@[k]).owned_by == side && g0[k].owned_by
                        != side ==> reaches(g0, side, new_color, k),
                !progressing ==> quiescent(self.game_grid@, side, new_color),
            decreases count_unclaimed(self.game_grid@, GRID_SIZE as int), (if progressing {
                1int
            } else {
                0int
            }),
        {
            let ghost g_pass = self.game_grid@;
            proof {
                lemma_count_bounds(g_pass, GRID_SIZE as int);
            }
            let mut captured: usize = 0;
            let ghost mut changed_idx: int = 0;
            let mut idx: usize = 0;
            while idx < GRID_SIZE
                invariant
                    idx <= GRID_SIZE,
                    self.game_grid@.len() == GRID_SIZE,
                    grows_by_capture(g0, self.game_grid@, side),
                    grows_by_capture(g_pass, self.game_grid@, side),
                    forall|k: int|
                        in_grid(k) && (#[trigger] self.game_grid@[k]).owned_by == side
                            && g0[k].owned_by != side ==> reaches(g0, side, new_color, k),
                    captured as int == count_unclaimed(g_pass, GRID_SIZE as int) - count_unclaimed(
                        self.game_grid@,
                        GRID_SIZE as int,
                    ),
                    captured > 0 ==> in_grid(changed_idx) && g_pass[changed_idx].owned_by
                        == OwnedBy::Nobody && self.game_grid@[changed_idx].owned_by
                        != OwnedBy::Nobody,
                    captured == 0 ==> self.game_grid@ == g_pass,
                    captured == 0 ==> (forall|k: int, j: int|
                        0 <= k < idx && owns(self.game_grid@, side, k) && #[trigger] is_adjacent(
                            k,
                            j,
                        ) ==> !capturable(self.game_grid@, new_color, j)),
                decreases GRID_SIZE - idx,
            {
                if self.game_grid[idx].owned_by == side {
                    let pt = index_to_point(idx as i32);
                    let neighbors = self.get_neighbors(pt.0, pt.1);
                    proof {
                        lemma_neighbors_adjacent(idx as int);
                    }
                    let mut ni: usize = 0;
                    while ni < 4
                        invariant
                            ni <= 4,
                            self.game_grid@.len() == GRID_SIZE,
                            grows_by_capture(g0, self.game_grid@, side),
                            grows_by_capture(g_pass, self.game_grid@, side),
                            forall|k: int|
                                in_grid(k) && (#[trigger] self.game_grid@[k]).owned_by == side
                                    && g0[k].owned_by != side ==> reaches(g0, side, new_color, k),
                            captured as int == count_unclaimed(g_pass, GRID_SIZE as int)
                                - count_unclaimed(self.game_grid@, GRID_SIZE as int),
                            captured > 0 ==> in_grid(changed_idx) && g_pass[changed_idx].owned_by
                                == OwnedBy::Nobody && self.game_grid@[changed_idx].owned_by
                                != OwnedBy::Nobody,
                            captured == 0 ==> self.game_grid@ == g_pass,
                            captured == 0 ==> (forall|k: int, j: int|
                                0 <= k < idx && owns(self.game_grid@, side, k)
                                    && #[trigger] is_adjacent(k, j) ==> !capturable(
                                    self.game_grid@,
                                    new_color,
                                    j,
                                )),
                            self.game_grid@[idx as int].owned_by == side,
                            neighbors@.len() == 4,
                            neighbors@[0] == west_of(idx as int),
                            neighbors@[1] == east_of(idx as int),
                            neighbors@[2] == south_of(idx as int),
                            neighbors@[3] == north_of(idx as int),
                            captured == 0 ==> (forall|nv: int|
                                0 <= nv < ni && (#[trigger] neighbors@[nv]).is_some()
                                    ==> !capturable(
                                    self.game_grid@,
                                    new_color,
                                    neighbors@[nv].unwrap() as int,
                                )),
                        decreases 4 - ni,
                    {
                        let nopt = neighbors[ni];
                        if let Some(j) = nopt {
                            proof {
                                if ni == 0 {
                                    assert(west_of(idx as int) == Some(j));
                                } else if ni == 1 {
                                    assert(east_of(idx as int) == Some(j));
                                } else if ni == 2 {
                                    assert(south_of(idx as int) == Some(j));
                                } else {
                                    assert(north_of(idx as int) == Some(j));
                                }
                                assert(is_adjacent(idx as int, j as int));
                            }
                            let b = self.game_grid[j];
                            if b.owned_by == OwnedBy::Nobody && b.color == new_color {
                                proof {
                                    let g_cur = self.game_grid@;
                                    assert(g_cur[j as int] == g0[j as int]);
                                    assert(capturable(g0, new_color, j as int));
                                    lemma_reach_step(g0, side, new_color, idx as int, j as int);
                                    lemma_count_update(
                                        g_cur,
                                        j as int,
                                        Block { color: b.color, owned_by: side },
                                        GRID_SIZE as int,
                                    );
                                    changed_idx = j as int;
                                }
                                self.game_grid[j] = Block { color: b.color, owned_by: side };
                                captured = captured + 1;
                            }
                        }
                        ni += 1;
                    }
                    proof {
                        if captured == 0 {
                            assert forall|j: int|
                                is_adjacent(idx as int, j) implies !capturable(
                                self.game_grid@,
                                new_color,
                                j,
                            ) by {
                                lemma_adjacent_cases(idx as int, j);
                                assert(j as usize as int == j);
                            };
                        }
                    }
                }
                idx += 1;
            }
            if captured == 0 {
                progressing = false;
            } else {
                proof {
                    lemma_count_lt(g_pass, self.game_grid@, GRID_SIZE as int, changed_idx);
                }
            }
        }
        proof {
            let gf = self.game_grid@;
            assert forall|i: int|
                in_grid(i) && reaches(g0, side, new_color, i) implies (#[trigger] gf[i]).owned_by
                == side by {
                let p = choose|p: Seq<int>|
                    is_capture_path(g0, side, new_color, p) && p.last() == i;
                lemma_path_captured(g0, gf, side, new_color, p);
            };
            assert(saturates_to(g0, side, new_color, gf));
        }
    }

    /// One full turn for `side` with proposed color `color`. The proposal
    /// is validated first, against the palette size and against the two
    /// colors currently held by the sides, both read before any change: a
    /// rejected proposal leaves the board unchanged, an accepted one
    /// recolors the side's whole region and then saturates to the fixed
    /// point.
    pub fn apply(&mut self, side: OwnedBy, color: u8) -> (r: Result<(), MoveError>)
        requires
            old(self).wf(),
            side != OwnedBy::Nobody,
        ensures
            final(self).wf(),
            (r == Err::<(), MoveError>(MoveError::OutOfRangeColor) <==> color as int
                >= COLORS_NUM),
            (r == Err::<(), MoveError>(MoveError::ForbiddenColor) <==> ((color as int) < COLORS_NUM
                && (color == old(self)@[PLAYER_SEED as int].color || color == old(
                self,
            )@[AI_SEED as int].color))),
            r is Err ==> final(self)@ == old(self)@,
            r is Ok ==> saturates_to(
                recolor_spec(old(self)@, side, color),
                side,
                color,
                final(self)@,
            ),
    {
        if color as usize >= COLORS_NUM {
            return Err(MoveError::OutOfRangeColor);
        }
        let player_color = self.get_player_color();
        let ai_color = self.get_ai_color();
        if color == player_color || color == ai_color {
            return Err(MoveError::ForbiddenColor);
        }
        self.recolor_side(side, color);
        proof {
            assert(grid_wf(self.game_grid@));
        }
        self.saturate(side, color);
        proof {
            assert(grid_wf(self.game_grid@));
        }
        Ok(())
    }
}

} // verus!
