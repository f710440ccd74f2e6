//! Cell storage: the grid of colored cells with their ownership tags, the
//! side-color queries, and the grid-wide recolor primitive.

use crate::coords::{col_of, in_grid, row_of, COLORS_NUM, GRID_SIZE, GRID_X, GRID_Y};
use rand::Rng;
use vstd::prelude::*;

verus! {

/// The ownership tag of one cell: captured by one of the two sides, or
/// still unclaimed.
#[derive(Clone, Copy, PartialEq, Eq, Structural, Debug)]
pub enum OwnedBy {
    Player,
    AI,
    Nobody,
}

/// One grid position: a palette color and an ownership tag.
#[derive(Clone, Copy, PartialEq, Eq, Structural, Debug)]
pub struct Block {
    pub color: u8,
    pub owned_by: OwnedBy,
}

/// Linear index of the cell seeded to `Player` at session start: the
/// bottom-left corner, `(0, GRID_Y - 1)`.
pub const PLAYER_SEED: usize = 56;

/// Linear index of the cell seeded to `AI` at session start: the top-right
/// corner, `(GRID_X - 1, 0)`.
pub const AI_SEED: usize = 7;

/// The game board: a fixed-size grid of cells in row-major order.
pub struct Filler {
    pub game_grid: Vec<Block>,
}

/// A well-formed grid: full size, every cell colored from the palette.
pub open spec fn grid_wf(g: Seq<Block>) -> bool {
    &&& g.len() == GRID_SIZE
    &&& forall|i: int| 0 <= i < g.len() ==> (#[trigger] g[i].color as int) < COLORS_NUM
}

/// The grid after setting `color = c` on every cell owned by `side`,
/// ownership untouched.
pub open spec fn recolor_spec(g: Seq<Block>, side: OwnedBy, c: u8) -> Seq<Block> {
    Seq::new(
        g.len(),
        |i: int|
            if g[i].owned_by == side {
                Block { color: c, owned_by: g[i].owned_by }
            } else {
                g[i]
            },
    )
}

impl View for Filler {
    type V = Seq<Block>;

    open spec fn view(&self) -> Seq<Block> {
        self.game_grid@
    }
}

impl Filler {
    /// The board's well-formedness invariant.
    pub open spec fn wf(&self) -> bool {
        grid_wf(self@)
    }

    /// A freshly initialized board: every cell carries a palette color, the
    /// two corner seeds are owned by their sides, and every other cell is
    /// unclaimed.
    pub fn new() -> (r: Filler)
        ensures
            r.wf(),
            r@[PLAYER_SEED as int].owned_by == OwnedBy::Player,
            r@[AI_SEED as int].owned_by == OwnedBy::AI,
            forall|i: int|
                in_grid(i) && i != PLAYER_SEED && i != AI_SEED ==> (#[trigger] r@[i]).owned_by
                    == OwnedBy::Nobody,
    {
        let mut grid = make_random_grid();
        let player_seed = grid[PLAYER_SEED];
        grid[PLAYER_SEED] = Block { color: player_seed.color, owned_by: OwnedBy::Player };
        let ai_seed = grid[AI_SEED];
        grid[AI_SEED] = Block { color: ai_seed.color, owned_by: OwnedBy::AI };
        Filler { game_grid: grid }
    }

    /// The four neighbor cell indices of position `(x, y)`, in the order
    /// west, east, south, north; a direction that would leave the grid is
    /// absent, never wrapped around.
    pub fn get_neighbors(&self, x: i32, y: i32) -> (r: Vec<Option<usize>>)
        requires
            0 <= x < GRID_X as i32,
            0 <= y < GRID_Y as i32,
        ensures
            r@.len() == 4,
            r@[0] == crate::coords::west_of(y as int * (GRID_X as int) + x as int),
            r@[1] == crate::coords::east_of(y as int * (GRID_X as int) + x as int),
            r@[2] == crate::coords::south_of(y as int * (GRID_X as int) + x as int),
            r@[3] == crate::coords::north_of(y as int * (GRID_X as int) + x as int),
    {
        let idx = y * (GRID_X as i32) + x;
        proof {
            assert(row_of(idx as int) == y as int && col_of(idx as int) == x as int)
                by (nonlinear_arith)
                requires
                    idx as int == y as int * (GRID_X as int) + x as int,
                    0 <= x < GRID_X as i32,
                    0 <= y < GRID_Y as i32,
            ;
        }
        let mut to_return: Vec<Option<usize>> = Vec::new();
        if x > 0 {
            to_return.push(Some((idx - 1) as usize));
        } else {
            to_return.push(None);
        }
        if x < GRID_X as i32 - 1 {
            to_return.push(Some((idx + 1) as usize));
        } else {
            to_return.push(None);
        }
        if y < GRID_Y as i32 - 1 {
            to_return.push(Some((idx + GRID_X as i32) as usize));
        } else {
            to_return.push(None);
        }
        if y > 0 {
            to_return.push(Some((idx - GRID_X as i32) as usize));
        } else {
            to_return.push(None);
        }
        to_return
    }

    /// The color currently held by the `Player` side: the color of its
    /// seed cell.
    pub fn get_player_color(&self) -> (r: u8)
        requires
            self@.len() == GRID_SIZE,
        ensures
            r == self@[PLAYER_SEED as int].color,
    {
        self.game_grid[PLAYER_SEED].color
    }

    /// The color currently held by the `AI` side: the color of its seed
    /// cell.
    pub fn get_ai_color(&self) -> (r: u8)
        requires
            self@.len() == GRID_SIZE,
        ensures
            r == self@[AI_SEED as int].color,
    {
        self.game_grid[AI_SEED].color
    }

    /// Sets `color = new_color` on every cell owned by `side`; ownership is
    /// untouched, every other cell is untouched.
    pub fn recolor_side(&mut self, side: OwnedBy, new_color: u8)
        requires
            old(self)@.len() == GRID_SIZE,
        ensures
            final(self)@ == recolor_spec(old(self)@, side, new_color),
    {
        let mut idx: usize = 0;
        while idx < GRID_SIZE
            invariant
                old(self)@.len() == GRID_SIZE,
                self@.len() == GRID_SIZE,
                idx <= GRID_SIZE,
                forall|k: int|
                    0 <= k < idx ==> #[trigger] self@[k] == recolor_spec(
                        old(self)@,
                        side,
                        new_color,
                    )[k],
                forall|k: int| idx <= k < GRID_SIZE ==> #[trigger] self@[k] == old(self)@[k],
            decreases GRID_SIZE - idx,
        {
            let b = self.game_grid[idx];
            if b.owned_by == side {
                self.game_grid[idx] = Block { color: new_color, owned_by: b.owned_by };
            }
            idx += 1;
        }
        proof {
            assert(self@ =~= recolor_spec(old(self)@, side, new_color));
        }
    }

    /// Recolors the whole region owned by `Player`.
    pub fn set_player_color(&mut self, new_color: u8)
        requires
            old(self)@.len() == GRID_SIZE,
        ensures
            final(self)@ == recolor_spec(old(self)@, OwnedBy::Player, new_color),
    {
        self.recolor_side(OwnedBy::Player, new_color);
    }

    /// Recolors the whole region owned by `AI`.
    pub fn set_ai_color(&mut self, new_color: u8)
        requires
            old(self)@.len() == GRID_SIZE,
        ensures
            final(self)@ == recolor_spec(old(self)@, OwnedBy::AI, new_color),
    {
        self.recolor_side(OwnedBy::AI, new_color);
    }
}

/// Relies on rand::Rng::gen_range over rand::thread_rng: returns a value
/// uniformly drawn from `[0, bound)`; panics only on an empty range, which
/// the precondition rules out.
#[verifier::external_body]
fn random_color(bound: usize) -> (r: u8)
    requires
        0 < bound <= 256,
    ensures
        (r as int) < bound,
{
    let mut rng = rand::thread_rng();
    rng.gen_range(0..bound) as u8
}

/// A full grid of unclaimed cells, each with a color drawn from the
/// palette by the external random source.
fn make_random_grid() -> (r: Vec<Block>)
    ensures
        r@.len() == GRID_SIZE,
        forall|i: int| 0 <= i < GRID_SIZE ==> (#[trigger] r@[i].color as int) < COLORS_NUM,
        forall|i: int| 0 <= i < GRID_SIZE ==> (#[trigger] r@[i]).owned_by == OwnedBy::Nobody,
{
    let mut to_return: Vec<Block> = Vec::new();
    while to_return.len() < GRID_SIZE
        invariant
            to_return@.len() <= GRID_SIZE,
            forall|i: int|
                0 <= i < to_return@.len() ==> (#[trigger] to_return@[i].color as int) < COLORS_NUM,
            forall|i: int|
                0 <= i < to_return@.len() ==> (#[trigger] to_return@[i]).owned_by == OwnedBy::Nobody,
        decreases GRID_SIZE - to_return@.len(),
    {
        let c = random_color(COLORS_NUM);
        to_return.push(Block { color: c, owned_by: OwnedBy::Nobody });
    }
    to_return
}

} // verus!
