use crate::block::{lemma_catalog_shapes, Block, BlockGeometry, Offset};
use crate::grid::{
    all_in_grid, empty_grid, fits, footprint, free_count, grid_of, in_grid, is_grid,
    lemma_footprint_distinct, lemma_stamp_covers, lemma_stamp_undo, stamp, Grid, Position, World,
};
use vstd::prelude::*;

verus! {

/// The pieces that a search may place, in the order in which it tries them.
pub type Inventory = Vec<Block>;

/// A piece in one of its orientations, with its anchor on a cell of the board.
#[derive(Debug, Clone, Copy, PartialEq, Eq)]
pub struct Placement {
    pub block: Block,
    pub rotation: usize,
    pub anchor_pos: Position,
}

impl Placement {
    /// The rotation names one of the piece's orientations.
    pub open spec fn well_formed(self) -> bool {
        self.rotation < self.block.shapes().len()
    }

    /// The anchor cell.
    pub open spec fn anchor(self) -> (int, int) {
        (self.anchor_pos.0 as int, self.anchor_pos.1 as int)
    }

    /// The cells that the placement covers, anchor first.
    pub open spec fn cells(self) -> Seq<(int, int)> {
        footprint(self.anchor(), self.block.shapes()[self.rotation as int])
    }
}

/// The board `g` after `p` was applied: its cells hold the piece's id.
pub open spec fn placed(g: Grid, p: Placement) -> Grid {
    stamp(g, p.cells(), p.block.id())
}

/// The board `g` after `p` was undone: its cells are free.
pub open spec fn cleared(g: Grid, p: Placement) -> Grid {
    stamp(g, p.cells(), 0)
}

/// The state of one search: the board, the placements applied to it, oldest
/// first, and the pieces to choose from.
#[derive(Debug)]
pub struct Game<const W: usize, const H: usize> {
    pub world: World<W, H>,
    pub placements: Vec<Placement>,
    pub inventory: Inventory,
}

/// The coordinate `d` cells away from `from`.
fn shifted(from: usize, d: i32) -> (to: usize)
    requires
        0 <= from + d <= usize::MAX,
    ensures
        to == from + d,
{
    if d >= 0 {
        from + (d as usize)
    } else {
        from - ((-(d as i64)) as usize)
    }
}

impl<const W: usize, const H: usize> Game<W, H> {
    /// The board as a grid.
    pub open spec fn grid(self) -> Grid {
        grid_of(self.world)
    }

    /// A game on an empty board with nothing placed.
    pub fn new(inventory: Inventory) -> (game: Self)
        ensures
            game.inventory == inventory,
            game.placements@.len() == 0,
            game.grid() == empty_grid(W as nat, H as nat),
    {
        let game = Game { world: [[0usize; W]; H], placements: Vec::new(), inventory };
        proof {
            assert forall|y: int, x: int| 0 <= y < H && 0 <= x < W implies game.grid()[y][x]
                == 0 by {
                assert(game.world[y][x] == 0);
            }
            assert(game.grid() =~~= empty_grid(W as nat, H as nat));
        }
        game
    }

    /// Writes `value` into the anchor cell and into each cell of `geometry`.
    pub fn set_values(&mut self, anchor_pos: &Position, geometry: &BlockGeometry, value: usize)
        requires
            all_in_grid(
                old(self).grid(),
                footprint((anchor_pos.0 as int, anchor_pos.1 as int), geometry@),
            ),
        ensures
            final(self).grid() == stamp(
                old(self).grid(),
                footprint((anchor_pos.0 as int, anchor_pos.1 as int), geometry@),
                value,
            ),
            final(self).placements == old(self).placements,
            final(self).inventory == old(self).inventory,
    {
        let ghost before = self.grid();
        let ghost anchor = (anchor_pos.0 as int, anchor_pos.1 as int);
        let ghost cells = footprint(anchor, geometry@);
        assert(in_grid(before, cells[0]));
        self.world[anchor_pos.1][anchor_pos.0] = value;
        proof {
            assert(cells.take(1) =~= seq![anchor]);
            assert(self.grid() =~~= stamp(before, cells.take(1), value)) by {
                assert forall|y: int, x: int| 0 <= y < H && 0 <= x < W implies self.grid()[y][x]
                    == stamp(before, cells.take(1), value)[y][x] by {
                    if (x, y) == anchor {
                        assert(cells.take(1)[0] == (x, y));
                    }
                }
            }
        }
        let mut k: usize = 0;
        while k < geometry.points.len()
            invariant
                k <= geometry@.len(),
                cells == footprint(anchor, geometry@),
                anchor == (anchor_pos.0 as int, anchor_pos.1 as int),
                all_in_grid(before, cells),
                is_grid(before, W as nat, H as nat),
                self.grid() == stamp(before, cells.take(k + 1), value),
                self.placements == old(self).placements,
                self.inventory == old(self).inventory,
            decreases geometry@.len() - k,
        {
            let point: Offset = geometry.points[k];
            assert(in_grid(before, cells[k + 1]));
            let x = shifted(anchor_pos.0, point.0);
            let y = shifted(anchor_pos.1, point.1);
            let ghost prev = self.grid();
            self.world[y][x] = value;
            proof {
                let upto = cells.take(k + 1);
                let next = cells.take(k + 2);
                assert(next =~= upto.push((x as int, y as int)));
                assert forall|j: int, i: int| 0 <= j < H && 0 <= i < W implies self.grid()[j][i]
                    == stamp(before, next, value)[j][i] by {
                    assert(prev[j][i] == stamp(before, upto, value)[j][i]);
                    if (i, j) == (x as int, y as int) {
                        assert(next[k + 1] == (i, j));
                    } else if upto.contains((i, j)) {
                        let n = choose|n: int| 0 <= n < upto.len() && upto[n] == (i, j);
                        assert(next[n] == (i, j));
                    } else if next.contains((i, j)) {
                        let n = choose|n: int| 0 <= n < next.len() && next[n] == (i, j);
                        assert(upto[n] == (i, j));
                    }
                }
                assert(self.grid() =~~= stamp(before, next, value));
            }
            k += 1;
        }
        proof {
            assert(cells.take(geometry@.len() as int + 1) =~= cells);
        }
    }

    /// Applies `placement`: its cells take the piece's id, and it goes on top
    /// of the placements.
    pub fn place_block(&mut self, placement: Placement)
        requires
            placement.well_formed(),
            all_in_grid(old(self).grid(), placement.cells()),
        ensures
            final(self).grid() == placed(old(self).grid(), placement),
            final(self).placements@ == old(self).placements@.push(placement),
            final(self).inventory == old(self).inventory,
    {
        let geometries = placement.block.get_geometries();
        let geometry = &geometries[placement.rotation];
        self.set_values(&placement.anchor_pos, geometry, placement.block.get_block_id());
        self.placements.push(placement);
    }

    /// Undoes the placement on top, if there is one: its cells become free,
    /// and it is handed back.
    pub fn pop_block(&mut self) -> (popped: Option<Placement>)
        requires
            old(self).placements@.len() > 0 ==> {
                &&& old(self).placements@.last().well_formed()
                &&& all_in_grid(old(self).grid(), old(self).placements@.last().cells())
            },
        ensures
            final(self).inventory == old(self).inventory,
            old(self).placements@.len() == 0 ==> {
                &&& popped is None
                &&& final(self).grid() == old(self).grid()
                &&& final(self).placements@ == old(self).placements@
            },
            old(self).placements@.len() > 0 ==> {
                &&& popped == Some(old(self).placements@.last())
                &&& final(self).grid() == cleared(old(self).grid(), old(self).placements@.last())
                &&& final(self).placements@ == old(self).placements@.drop_last()
            },
    {
        match self.placements.pop() {
            None => None,
            Some(placement) => {
                let geometries = placement.block.get_geometries();
                let geometry = &geometries[placement.rotation];
                self.set_values(&placement.anchor_pos, geometry, 0);
                Some(placement)
            },
        }
    }
}

/// Applying a placement of a piece with a non-zero id to free cells lowers
/// the number of free cells by the piece's footprint size, which is at least
/// four.
pub proof fn lemma_place_lowers_free_count(g: Grid, w: nat, h: nat, p: Placement)
    requires
        is_grid(g, w, h),
        p.well_formed(),
        fits(g, p.cells()),
        p.block.id() != 0,
    ensures
        free_count(placed(g, p)) + p.block.footprint_size() == free_count(g),
        free_count(placed(g, p)) < free_count(g),
{
    lemma_catalog_shapes(p.block, p.rotation as int);
    lemma_footprint_distinct(p.anchor(), p.block.shapes()[p.rotation as int]);
    lemma_stamp_covers(g, w, h, p.cells(), p.block.id());
}

/// Undoing a placement that was applied to free cells gives back the board
/// as it was, and with it the number of free cells.
pub proof fn lemma_place_then_clear(g: Grid, p: Placement)
    requires
        fits(g, p.cells()),
    ensures
        cleared(placed(g, p), p) == g,
        free_count(cleared(placed(g, p), p)) == free_count(g),
{
    lemma_stamp_undo(g, p.cells(), p.block.id());
}

/// `place_block` followed by `pop_block` leaves board, placements and
/// inventory as they were, whenever the placement went onto free cells:
/// stated of any three states `before`, `between` and `after` that the
/// contracts of the two calls relate.
pub proof fn lemma_place_pop_round_trip<const W: usize, const H: usize>(
    before: Game<W, H>,
    between: Game<W, H>,
    after: Game<W, H>,
    p: Placement,
)
    requires
        fits(before.grid(), p.cells()),
        between.grid() == placed(before.grid(), p),
        between.placements@ == before.placements@.push(p),
        between.inventory == before.inventory,
        after.grid() == cleared(between.grid(), between.placements@.last()),
        after.placements@ == between.placements@.drop_last(),
        after.inventory == between.inventory,
    ensures
        after.grid() == before.grid(),
        after.world == before.world,
        after.placements@ == before.placements@,
        after.inventory == before.inventory,
        free_count(after.grid()) == free_count(before.grid()),
{
    lemma_place_then_clear(before.grid(), p);
    assert(before.placements@.push(p).drop_last() =~= before.placements@);
    lemma_same_grid_same_world(after.world, before.world);
}

/// Two boards with the same grid are the same board.
pub proof fn lemma_same_grid_same_world<const W: usize, const H: usize>(
    a: World<W, H>,
    b: World<W, H>,
)
    requires
        grid_of(a) == grid_of(b),
    ensures
        a == b,
{
    assert forall|y: int| 0 <= y < H implies a[y] == b[y] by {
        assert(grid_of(a)[y] == a[y]@);
        assert(grid_of(b)[y] == b[y]@);
        assert(a[y] =~= b[y]);
    }
    assert(a =~= b);
}

} // verus!
