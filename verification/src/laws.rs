//! The game laws, stated and proved against the engine's contracts:
//! idempotence of saturation, monotonicity of ownership across a turn, and
//! preservation of each side's region connectivity.

use crate::board::{recolor_spec, Block, OwnedBy, AI_SEED, PLAYER_SEED};
use crate::coords::{in_grid, is_adjacent, GRID_SIZE};
use crate::engine::{capturable, is_capture_path, owns, quiescent, reaches, saturates_to};
use vstd::prelude::*;

verus! {

/// In a quiescent grid no cell is reachable: a capture path could not even
/// take its first step.
proof fn lemma_quiescent_no_reach(g: Seq<Block>, side: OwnedBy, c: u8)
    requires
        quiescent(g, side, c),
    ensures
        forall|i: int| !reaches(g, side, c, i),
{
    assert forall|i: int| !reaches(g, side, c, i) by {
        if reaches(g, side, c, i) {
            let p = choose|p: Seq<int>| is_capture_path(g, side, c, p) && p.last() == i;
            let s = choose|s: int| owns(g, side, s) && is_adjacent(s, p[0]);
            assert(capturable(g, c, p[0]));
            assert(false);
        }
    };
}

/// Law: saturating a quiescent grid is a no-op. If a side's freshly
/// recolored region has no unclaimed neighbor of the new color, the very
/// first pass captures zero cells and the grid comes back unchanged.
pub proof fn lemma_quiescent_saturation_noop(g: Seq<Block>, g2: Seq<Block>, side: OwnedBy, c: u8)
    requires
        quiescent(g, side, c),
        saturates_to(g, side, c, g2),
    ensures
        g2 == g,
{
    lemma_quiescent_no_reach(g, side, c);
    assert forall|i: int| 0 <= i < g.len() implies g2[i] == g[i] by {
        assert(!reaches(g, side, c, i));
        if g2[i].owned_by != side {
            assert(g2[i].owned_by == g[i].owned_by);
        }
        assert(g2[i].color == g[i].color);
    };
    assert(g2 =~= g);
}

/// Law: saturation is idempotent. Running the engine once more on a grid
/// it has just saturated captures zero additional cells.
pub proof fn lemma_saturation_idempotent(
    g: Seq<Block>,
    g2: Seq<Block>,
    g3: Seq<Block>,
    side: OwnedBy,
    c: u8,
)
    requires
        saturates_to(g, side, c, g2),
        saturates_to(g2, side, c, g3),
    ensures
        g3 == g2,
{
    lemma_quiescent_saturation_noop(g2, g3, side, c);
}

/// Law: ownership is monotone and exclusive across a turn. A cell owned by
/// either side before an accepted turn is owned by the same side after it;
/// no owned cell reverts to unclaimed or switches sides.
pub proof fn lemma_turn_ownership_monotone(g: Seq<Block>, g2: Seq<Block>, side: OwnedBy, c: u8)
    requires
        g.len() == GRID_SIZE,
        saturates_to(recolor_spec(g, side, c), side, c, g2),
    ensures
        forall|i: int|
            in_grid(i) && (#[trigger] g[i]).owned_by != OwnedBy::Nobody ==> g2[i].owned_by
                == g[i].owned_by,
{
    let gr = recolor_spec(g, side, c);
    assert forall|i: int|
        in_grid(i) && (#[trigger] g[i]).owned_by != OwnedBy::Nobody implies g2[i].owned_by
        == g[i].owned_by by {
        assert(gr[i].owned_by == g[i].owned_by);
        if g[i].owned_by == side {
            assert(g2[i].owned_by == side);
        } else {
            if g2[i].owned_by == side {
                assert(reaches(gr, side, c, i));
                let p = choose|p: Seq<int>| is_capture_path(gr, side, c, p) && p.last() == i;
                assert(capturable(gr, c, i));
                assert(false);
            }
            assert(g2[i].owned_by == gr[i].owned_by);
        }
    };
}

/// A path through cells all owned by `side`, pairwise 4-adjacent.
pub open spec fn is_region_path(g: Seq<Block>, side: OwnedBy, p: Seq<int>) -> bool {
    &&& p.len() >= 1
    &&& (forall|k: int| 0 <= k < p.len() ==> owns(g, side, #[trigger] p[k]))
    &&& (forall|k: int| 0 <= k < p.len() - 1 ==> is_adjacent(#[trigger] p[k], p[k + 1]))
}

/// Cell `b` can be reached from cell `a` without leaving the region of
/// `side`.
pub open spec fn connected_in_region(g: Seq<Block>, side: OwnedBy, a: int, b: int) -> bool {
    exists|p: Seq<int>| is_region_path(g, side, p) && p.first() == a && p.last() == b
}

/// The region of `side` contains its seed cell and is 4-connected around
/// it.
pub open spec fn region_connected(g: Seq<Block>, side: OwnedBy, seed: int) -> bool {
    &&& owns(g, side, seed)
    &&& (forall|i: int| #[trigger] owns(g, side, i) ==> connected_in_region(g, side, seed, i))
}

/// A region that consists of its seed cell alone is trivially connected:
/// the shape of a freshly initialized board.
pub proof fn lemma_singleton_region_connected(g: Seq<Block>, side: OwnedBy, seed: int)
    requires
        owns(g, side, seed),
        forall|i: int| #[trigger] owns(g, side, i) ==> i == seed,
    ensures
        region_connected(g, side, seed),
{
    assert forall|i: int| #[trigger] owns(g, side, i) implies connected_in_region(
        g,
        side,
        seed,
        i,
    ) by {
        let p = seq![seed];
        assert(p.first() == seed && p.last() == seed && p.len() == 1);
        assert(is_region_path(g, side, p));
        assert(connected_in_region(g, side, seed, i));
    };
}

/// On a freshly initialized board each side's region is its seed cell
/// alone, hence 4-connected: the base case of the connectivity invariant.
pub proof fn lemma_fresh_board_connected(g: Seq<Block>)
    requires
        g.len() == GRID_SIZE,
        g[PLAYER_SEED as int].owned_by == OwnedBy::Player,
        g[AI_SEED as int].owned_by == OwnedBy::AI,
        forall|i: int|
            in_grid(i) && i != PLAYER_SEED && i != AI_SEED ==> (#[trigger] g[i]).owned_by
                == OwnedBy::Nobody,
    ensures
        region_connected(g, OwnedBy::Player, PLAYER_SEED as int),
        region_connected(g, OwnedBy::AI, AI_SEED as int),
{
    lemma_singleton_region_connected(g, OwnedBy::Player, PLAYER_SEED as int);
    lemma_singleton_region_connected(g, OwnedBy::AI, AI_SEED as int);
}

/// Saturation keeps the acting side's region connected: every captured
/// cell is tied to the old region by its capture path, whose cells are all
/// captured as well.
pub proof fn lemma_saturation_preserves_connectivity(
    g: Seq<Block>,
    g2: Seq<Block>,
    side: OwnedBy,
    c: u8,
    seed: int,
)
    requires
        saturates_to(g, side, c, g2),
        region_connected(g, side, seed),
    ensures
        region_connected(g2, side, seed),
{
    assert(owns(g2, side, seed));
    assert forall|i: int| #[trigger] owns(g2, side, i) implies connected_in_region(
        g2,
        side,
        seed,
        i,
    ) by {
        if owns(g, side, i) {
            assert(connected_in_region(g, side, seed, i));
            let p = choose|p: Seq<int>|
                is_region_path(g, side, p) && p.first() == seed && p.last() == i;
            assert forall|k: int| 0 <= k < p.len() implies owns(g2, side, #[trigger] p[k]) by {
                assert(owns(g, side, p[k]));
            };
            assert(is_region_path(g2, side, p));
            assert(connected_in_region(g2, side, seed, i));
        } else {
            assert(reaches(g, side, c, i));
            let p = choose|p: Seq<int>| is_capture_path(g, side, c, p) && p.last() == i;
            let s = choose|s: int| owns(g, side, s) && is_adjacent(s, p[0]);
            assert(connected_in_region(g, side, seed, s));
            let q = choose|q: Seq<int>|
                is_region_path(g, side, q) && q.first() == seed && q.last() == s;
            // every cell of the capture path is itself reachable, through
            // the same path cut short, so it is owned after saturation
            assert forall|k: int| 0 <= k < p.len() implies owns(g2, side, #[trigger] p[k]) by {
                let pre = p.take(k + 1);
                assert(forall|m: int| 0 <= m < pre.len() ==> #[trigger] pre[m] == p[m]);
                assert(pre.last() == p[k]);
                assert(owns(g, side, s) && is_adjacent(s, pre[0]));
                assert(is_capture_path(g, side, c, pre));
                assert(reaches(g, side, c, p[k]));
            };
            let full = q + p;
            assert(full.len() == q.len() + p.len());
            assert(forall|k: int| 0 <= k < q.len() ==> #[trigger] full[k] == q[k]);
            assert(forall|k: int|
                q.len() <= k < full.len() ==> #[trigger] full[k] == p[k - q.len()]);
            assert forall|k: int| 0 <= k < full.len() implies owns(g2, side, #[trigger] full[k]) by {
                if k < q.len() {
                    assert(owns(g, side, q[k]));
                }
            };
            assert forall|k: int| 0 <= k < full.len() - 1 implies is_adjacent(
                #[trigger] full[k],
                full[k + 1],
            ) by {
                if k < q.len() - 1 {
                    assert(full[k] == q[k] && full[k + 1] == q[k + 1]);
                } else if k == q.len() - 1 {
                    assert(full[k] == q[q.len() - 1] && q[q.len() - 1] == s);
                    assert(full[k + 1] == p[0]);
                } else {
                    assert(full[k] == p[k - q.len()] && full[k + 1] == p[k + 1 - q.len()]);
                }
            };
            assert(is_region_path(g2, side, full));
            assert(full.first() == seed && full.last() == i);
            assert(connected_in_region(g2, side, seed, i));
        }
    };
}

/// Saturation for one side leaves the other side's region untouched, so
/// its connectivity is kept as well.
pub proof fn lemma_saturation_preserves_opponent_region(
    g: Seq<Block>,
    g2: Seq<Block>,
    side: OwnedBy,
    c: u8,
    other: OwnedBy,
    seed: int,
)
    requires
        saturates_to(g, side, c, g2),
        other != side,
        other != OwnedBy::Nobody,
        region_connected(g, other, seed),
    ensures
        region_connected(g2, other, seed),
{
    assert forall|i: int| in_grid(i) implies (owns(g, other, i) <==> owns(g2, other, i)) by {
        if owns(g, other, i) && !owns(g2, other, i) {
            if g2[i].owned_by == side {
                assert(reaches(g, side, c, i));
                let p = choose|p: Seq<int>| is_capture_path(g, side, c, p) && p.last() == i;
                assert(capturable(g, c, i));
                assert(false);
            }
            assert(g2[i].owned_by == g[i].owned_by);
        }
        if owns(g2, other, i) {
            assert(g2[i].owned_by == g[i].owned_by);
        }
    };
    assert(owns(g2, other, seed));
    assert forall|i: int| #[trigger] owns(g2, other, i) implies connected_in_region(
        g2,
        other,
        seed,
        i,
    ) by {
        assert(owns(g, other, i));
        assert(connected_in_region(g, other, seed, i));
        let p = choose|p: Seq<int>|
            is_region_path(g, other, p) && p.first() == seed && p.last() == i;
        assert forall|k: int| 0 <= k < p.len() implies owns(g2, other, #[trigger] p[k]) by {
            assert(owns(g, other, p[k]));
        };
        assert(is_region_path(g2, other, p));
        assert(connected_in_region(g2, other, seed, i));
    };
}

/// Law: each side's owned region stays 4-connected around its seed across
/// a full accepted turn (recolor, then saturation), for the acting side
/// and for its opponent alike; applied turn after turn, connectivity holds
/// after any sequence of valid turns on a fresh board.
pub proof fn lemma_turn_preserves_connectivity(
    g: Seq<Block>,
    g2: Seq<Block>,
    side: OwnedBy,
    c: u8,
    who: OwnedBy,
    seed: int,
)
    requires
        g.len() == GRID_SIZE,
        saturates_to(recolor_spec(g, side, c), side, c, g2),
        region_connected(g, who, seed),
        who != OwnedBy::Nobody,
    ensures
        region_connected(g2, who, seed),
{
    let gr = recolor_spec(g, side, c);
    assert(forall|i: int| in_grid(i) ==> (#[trigger] gr[i]).owned_by == g[i].owned_by);
    assert(region_connected(gr, who, seed)) by {
        assert(owns(gr, who, seed));
        assert forall|i: int| #[trigger] owns(gr, who, i) implies connected_in_region(
            gr,
            who,
            seed,
            i,
        ) by {
            assert(owns(g, who, i));
            assert(connected_in_region(g, who, seed, i));
            let p = choose|p: Seq<int>|
                is_region_path(g, who, p) && p.first() == seed && p.last() == i;
            assert forall|k: int| 0 <= k < p.len() implies owns(gr, who, #[trigger] p[k]) by {
                assert(owns(g, who, p[k]));
            };
            assert(is_region_path(gr, who, p));
            assert(connected_in_region(gr, who, seed, i));
        };
    };
    if who == side {
        lemma_saturation_preserves_connectivity(gr, g2, side, c, seed);
    } else {
        lemma_saturation_preserves_opponent_region(gr, g2, side, c, who, seed);
    }
}

} // verus!
