use crate::block::{Block, BlockGeometry, Offset};
use crate::game::{
    lemma_place_lowers_free_count, lemma_place_then_clear, lemma_same_grid_same_world, placed,
    Game, Placement,
};
use crate::grid::{
    fits, footprint, free_count, full, grid_of, grids_of, in_grid, is_cursor, is_free, is_grid,
    lemma_stamp_is_grid, occurs, scans_before, Grid, Position, World,
};
use vstd::prelude::*;

verus! {

/// The cursor of a board that is not full.
pub open spec fn cursor_of(g: Grid) -> Position {
    choose|c: Position| is_cursor(g, (c.0 as int, c.1 as int))
}

/// `p` may be applied to `g`: its piece is one of `inventory` and not yet on
/// the board, its anchor is the cursor, and all its cells are on the board
/// and free.
pub open spec fn legal(g: Grid, inventory: Seq<Block>, p: Placement) -> bool {
    &&& inventory.contains(p.block)
    &&& !occurs(g, p.block.id())
    &&& p.well_formed()
    &&& is_cursor(g, p.anchor())
    &&& fits(g, p.cells())
}

/// The placements of `block` at `cursor` in its first `r` orientations that
/// fit on `g`, in the order of the orientations.
pub open spec fn fitting_orientations(g: Grid, block: Block, cursor: Position, r: nat) -> Seq<
    Placement,
>
    decreases r,
{
    if r == 0 {
        Seq::empty()
    } else {
        let p = Placement { block, rotation: (r - 1) as usize, anchor_pos: cursor };
        let earlier = fitting_orientations(g, block, cursor, (r - 1) as nat);
        if fits(g, p.cells()) {
            earlier.push(p)
        } else {
            earlier
        }
    }
}

/// The placements at `cursor` of the first `k` pieces of `inventory`: of
/// each piece that is not on the board yet, every orientation that fits.
pub open spec fn candidates_among(g: Grid, inventory: Seq<Block>, cursor: Position, k: nat) -> Seq<
    Placement,
>
    decreases k,
{
    if k == 0 {
        Seq::empty()
    } else {
        let block = inventory[k - 1];
        let earlier = candidates_among(g, inventory, cursor, (k - 1) as nat);
        if occurs(g, block.id()) {
            earlier
        } else {
            earlier + fitting_orientations(g, block, cursor, block.shapes().len())
        }
    }
}

/// The legal placements on `g`, ordered by the piece's place in the
/// inventory, then by orientation. None where the board is full.
pub open spec fn candidates(g: Grid, inventory: Seq<Block>) -> Seq<Placement> {
    if full(g) {
        Seq::empty()
    } else {
        candidates_among(g, inventory, cursor_of(g), inventory.len())
    }
}

/// A board has at most one cursor.
pub proof fn lemma_cursor_unique(g: Grid, a: (int, int), b: (int, int))
    requires
        is_cursor(g, a),
        is_cursor(g, b),
    ensures
        a == b,
{
    assert(!scans_before(a, b));
    assert(!scans_before(b, a));
}

/// The first free cell in row-major order, or `None` where the board is full.
pub fn cursor_position<const W: usize, const H: usize>(world: &World<W, H>) -> (cursor: Option<
    Position,
>)
    ensures
        cursor is None <==> full(grid_of(*world)),
        cursor matches Some(c) ==> is_cursor(grid_of(*world), (c.0 as int, c.1 as int)) && c
            == cursor_of(grid_of(*world)),
{
    let ghost g = grid_of(*world);
    let mut y: usize = 0;
    while y < H
        invariant
            y <= H,
            g == grid_of(*world),
            forall|p: (int, int)| in_grid(g, p) && p.1 < y ==> g[p.1][p.0] != 0,
        decreases H - y,
    {
        let mut x: usize = 0;
        while x < W
            invariant
                x <= W,
                y < H,
                g == grid_of(*world),
                forall|p: (int, int)| in_grid(g, p) && p.1 < y ==> g[p.1][p.0] != 0,
                forall|i: int| 0 <= i < x ==> g[y as int][i] != 0,
            decreases W - x,
        {
            if world[y][x] == 0 {
                proof {
                    let c = (x as int, y as int);
                    assert(is_free(g, c));
                    assert forall|p: (int, int)| is_free(g, p) implies !scans_before(p, c) by {
                        if p.1 == y && p.0 < x {
                            assert(g[y as int][p.0] != 0);
                        }
                    }
                    assert(is_cursor(g, c));
                    let d = cursor_of(g);
                    assert(is_cursor(g, ((x, y).0 as int, (x, y).1 as int)));
                    lemma_cursor_unique(g, c, (d.0 as int, d.1 as int));
                }
                return Some((x, y));
            }
            x += 1;
        }
        y += 1;
    }
    None
}

/// Whether no cell of the board is free.
pub fn world_filled<const W: usize, const H: usize>(world: &World<W, H>) -> (filled: bool)
    ensures
        filled == full(grid_of(*world)),
{
    cursor_position(world).is_none()
}

/// Whether some cell of the board holds `id`.
pub fn piece_on_board<const W: usize, const H: usize>(world: &World<W, H>, id: usize) -> (found:
    bool)
    ensures
        found == occurs(grid_of(*world), id),
{
    let ghost g = grid_of(*world);
    let mut y: usize = 0;
    while y < H
        invariant
            y <= H,
            g == grid_of(*world),
            forall|p: (int, int)| in_grid(g, p) && p.1 < y ==> g[p.1][p.0] != id,
        decreases H - y,
    {
        let mut x: usize = 0;
        while x < W
            invariant
                x <= W,
                y < H,
                g == grid_of(*world),
                forall|p: (int, int)| in_grid(g, p) && p.1 < y ==> g[p.1][p.0] != id,
                forall|i: int| 0 <= i < x ==> g[y as int][i] != id,
            decreases W - x,
        {
            if world[y][x] == id {
                assert(in_grid(g, (x as int, y as int)) && g[y as int][x as int] == id);
                return true;
            }
            x += 1;
        }
        y += 1;
    }
    false
}

/// The coordinate `d` cells away from `from`, where it is below `limit`.
pub(crate) fn shifted_within(from: usize, d: i32, limit: usize) -> (to: Option<usize>)
    ensures
        to is Some <==> 0 <= from + d < limit,
        to matches Some(t) ==> t == from + d,
{
    if d >= 0 {
        let step = d as usize;
        if from < limit && step < limit - from {
            Some(from + step)
        } else {
            None
        }
    } else {
        let step = (-(d as i64)) as usize;
        if step <= from && from - step < limit {
            Some(from - step)
        } else {
            None
        }
    }
}

/// Whether the cell at `offset` from `anchor` lies on the board and is free.
fn free_at<const W: usize, const H: usize>(
    world: &World<W, H>,
    anchor: Position,
    offset: Offset,
) -> (free: bool)
    ensures
        free == is_free(grid_of(*world), (anchor.0 + offset.0, anchor.1 + offset.1)),
{
    match shifted_within(anchor.0, offset.0, W) {
        None => false,
        Some(x) => match shifted_within(anchor.1, offset.1, H) {
            None => false,
            Some(y) => world[y][x] == 0,
        },
    }
}

/// Whether the anchor cell and every cell of `geometry` lie on the board and
/// are free.
pub fn geometry_fits<const W: usize, const H: usize>(
    world: &World<W, H>,
    anchor: Position,
    geometry: &BlockGeometry,
) -> (possible: bool)
    ensures
        possible == fits(
            grid_of(*world),
            footprint((anchor.0 as int, anchor.1 as int), geometry@),
        ),
{
    let ghost g = grid_of(*world);
    let ghost cells = footprint((anchor.0 as int, anchor.1 as int), geometry@);
    if !free_at(world, anchor, (0, 0)) {
        assert(!is_free(g, cells[0]));
        return false;
    }
    let mut k: usize = 0;
    while k < geometry.points.len()
        invariant
            k <= geometry@.len(),
            g == grid_of(*world),
            cells == footprint((anchor.0 as int, anchor.1 as int), geometry@),
            forall|i: int| 0 <= i < k + 1 ==> is_free(g, #[trigger] cells[i]),
        decreases geometry@.len() - k,
    {
        if !free_at(world, anchor, geometry.points[k]) {
            assert(!is_free(g, cells[k + 1]));
            return false;
        }
        k += 1;
    }
    true
}

/// The legal placements on the board of `game`: for each piece of the
/// inventory that is not on the board, in inventory order, each orientation
/// that fits with its anchor on the cursor, in catalog order.
pub fn next_possible_placements<const W: usize, const H: usize>(game: &Game<W, H>) -> (placements:
    Vec<Placement>)
    ensures
        placements@ == candidates(game.grid(), game.inventory@),
        forall|p: Placement| placements@.contains(p) <==> legal(game.grid(), game.inventory@, p),
{
    let ghost g = game.grid();
    proof {
        assert(is_grid(g, W as nat, H as nat));
        assert forall|p: Placement| candidates(g, game.inventory@).contains(p) <==> legal(
            g,
            game.inventory@,
            p,
        ) by {
            lemma_candidates_are_the_legal(g, W as nat, H as nat, game.inventory@, p);
        }
    }
    let cursor = match cursor_position(&game.world) {
        Some(c) => c,
        None => return Vec::new(),
    };
    let mut placements: Vec<Placement> = Vec::new();
    let mut k: usize = 0;
    while k < game.inventory.len()
        invariant
            k <= game.inventory@.len(),
            g == game.grid(),
            placements@ == candidates_among(g, game.inventory@, cursor, k as nat),
        decreases game.inventory@.len() - k,
    {
        let block = game.inventory[k];
        if !piece_on_board(&game.world, block.get_block_id()) {
            let geometries = block.get_geometries();
            let ghost earlier = placements@;
            let mut rotation: usize = 0;
            while rotation < geometries.len()
                invariant
                    rotation <= geometries@.len(),
                    geometries@.len() == block.shapes().len(),
                    forall|i: int|
                        0 <= i < geometries@.len() ==> (#[trigger] geometries@[i])@
                            == block.shapes()[i],
                    g == game.grid(),
                    placements@ == earlier + fitting_orientations(
                        g,
                        block,
                        cursor,
                        rotation as nat,
                    ),
                decreases geometries@.len() - rotation,
            {
                let p = Placement { block, rotation, anchor_pos: cursor };
                if geometry_fits(&game.world, cursor, &geometries[rotation]) {
                    placements.push(p);
                }
                proof {
                    let upto = fitting_orientations(g, block, cursor, rotation as nat);
                    let next = fitting_orientations(g, block, cursor, (rotation + 1) as nat);
                    assert(p.cells() == footprint(
                        (cursor.0 as int, cursor.1 as int),
                        geometries@[rotation as int]@,
                    ));
                    if fits(g, p.cells()) {
                        assert(next == upto.push(p));
                        assert(placements@ =~= earlier + next);
                    } else {
                        assert(next == upto);
                    }
                }
                rotation += 1;
            }
        }
        k += 1;
    }
    placements
}

/// A placement is among the fitting orientations exactly when it is one of
/// those orientations and fits.
pub proof fn lemma_fitting_orientations(g: Grid, block: Block, cursor: Position, r: nat, p: Placement)
    ensures
        fitting_orientations(g, block, cursor, r).contains(p) <==> {
            &&& p.block == block
            &&& p.anchor_pos == cursor
            &&& p.rotation < r
            &&& fits(g, p.cells())
        },
    decreases r,
{
    if r > 0 {
        let q = Placement { block, rotation: (r - 1) as usize, anchor_pos: cursor };
        let earlier = fitting_orientations(g, block, cursor, (r - 1) as nat);
        lemma_fitting_orientations(g, block, cursor, (r - 1) as nat, p);
        if fits(g, q.cells()) {
            let now = earlier.push(q);
            assert(now[now.len() - 1] == q);
            if earlier.contains(p) {
                let i = choose|i: int| 0 <= i < earlier.len() && earlier[i] == p;
                assert(now[i] == p);
            }
            if now.contains(p) {
                let i = choose|i: int| 0 <= i < now.len() && now[i] == p;
                if i < earlier.len() {
                    assert(earlier[i] == p);
                }
            }
        }
    }
}

/// A placement is among the candidates of the first `k` pieces exactly when
/// its piece is one of them and not on the board, and it is a fitting
/// orientation of that piece at the cursor.
pub proof fn lemma_candidates_among(
    g: Grid,
    inventory: Seq<Block>,
    cursor: Position,
    k: nat,
    p: Placement,
)
    requires
        k <= inventory.len(),
    ensures
        candidates_among(g, inventory, cursor, k).contains(p) <==> {
            &&& inventory.take(k as int).contains(p.block)
            &&& !occurs(g, p.block.id())
            &&& p.well_formed()
            &&& p.anchor_pos == cursor
            &&& fits(g, p.cells())
        },
    decreases k,
{
    if k > 0 {
        let block = inventory[k - 1];
        let earlier = candidates_among(g, inventory, cursor, (k - 1) as nat);
        let own = fitting_orientations(g, block, cursor, block.shapes().len());
        let now = candidates_among(g, inventory, cursor, k);
        lemma_candidates_among(g, inventory, cursor, (k - 1) as nat, p);
        lemma_fitting_orientations(g, block, cursor, block.shapes().len(), p);
        let before = inventory.take(k - 1);
        let upto = inventory.take(k as int);
        assert(upto =~= before.push(block));
        assert(upto.contains(p.block) <==> before.contains(p.block) || p.block == block) by {
            assert(upto[k - 1] == block);
            if before.contains(p.block) {
                let i = choose|i: int| 0 <= i < before.len() && before[i] == p.block;
                assert(upto[i] == p.block);
            }
            if upto.contains(p.block) {
                let i = choose|i: int| 0 <= i < upto.len() && upto[i] == p.block;
                if i < k - 1 {
                    assert(before[i] == p.block);
                }
            }
        }
        if !occurs(g, block.id()) {
            assert(now == earlier + own);
            assert(now.contains(p) <==> earlier.contains(p) || own.contains(p)) by {
                if earlier.contains(p) {
                    let i = choose|i: int| 0 <= i < earlier.len() && earlier[i] == p;
                    assert(now[i] == p);
                }
                if own.contains(p) {
                    let i = choose|i: int| 0 <= i < own.len() && own[i] == p;
                    assert(now[earlier.len() + i] == p);
                }
                if now.contains(p) {
                    let i = choose|i: int| 0 <= i < now.len() && now[i] == p;
                    if i < earlier.len() {
                        assert(earlier[i] == p);
                    } else {
                        assert(own[i - earlier.len()] == p);
                    }
                }
            }
        }
    }
}

/// A board with a free cell has a cursor.
pub proof fn lemma_cursor_exists(g: Grid, w: nat, h: nat)
    requires
        is_grid(g, w, h),
        w <= usize::MAX,
        h <= usize::MAX,
        !full(g),
    ensures
        is_cursor(g, (cursor_of(g).0 as int, cursor_of(g).1 as int)),
{
    let c = lemma_scan(g, w, h, 0, 0);
    let found: Position = (c.0 as usize, c.1 as usize);
    assert(is_cursor(g, (found.0 as int, found.1 as int)));
}

/// Scanning on from `(x, y)`, with every cell before it occupied, comes to
/// the cursor.
proof fn lemma_scan(g: Grid, w: nat, h: nat, x: int, y: int) -> (c: (int, int))
    requires
        is_grid(g, w, h),
        !full(g),
        0 <= x <= w,
        0 <= y < h || (y == h && x == 0),
        forall|p: (int, int)| in_grid(g, p) && scans_before(p, (x, y)) ==> g[p.1][p.0] != 0,
    ensures
        is_cursor(g, c),
        0 <= c.0 < w,
        0 <= c.1 < h,
    decreases h - y, w - x,
{
    if y == h {
        assert forall|p: (int, int)| in_grid(g, p) implies g[p.1][p.0] != 0 by {
            assert(scans_before(p, (x, y)));
        }
        (0, 0)
    } else if x == w {
        assert forall|p: (int, int)| in_grid(g, p) && scans_before(p, (0, y + 1)) implies g[p.1][p.0]
            != 0 by {
            assert(scans_before(p, (x, y)));
        }
        lemma_scan(g, w, h, 0, y + 1)
    } else if g[y][x] == 0 {
        assert(is_free(g, (x, y)));
        (x, y)
    } else {
        assert forall|p: (int, int)| in_grid(g, p) && scans_before(p, (x + 1, y)) implies g[p.1][p.0]
            != 0 by {
            if p != (x, y) {
                assert(scans_before(p, (x, y)));
            }
        }
        lemma_scan(g, w, h, x + 1, y)
    }
}

/// The candidates are exactly the legal placements.
pub proof fn lemma_candidates_are_the_legal(
    g: Grid,
    w: nat,
    h: nat,
    inventory: Seq<Block>,
    p: Placement,
)
    requires
        is_grid(g, w, h),
        w <= usize::MAX,
        h <= usize::MAX,
    ensures
        candidates(g, inventory).contains(p) <==> legal(g, inventory, p),
{
    if full(g) {
        if legal(g, inventory, p) {
            assert(is_free(g, p.cells()[0]));
        }
    } else {
        let cursor = cursor_of(g);
        lemma_cursor_exists(g, w, h);
        lemma_candidates_among(g, inventory, cursor, inventory.len(), p);
        assert(inventory.take(inventory.len() as int) =~= inventory);
        if legal(g, inventory, p) {
            lemma_cursor_unique(g, p.anchor(), (cursor.0 as int, cursor.1 as int));
        }
        if candidates(g, inventory).contains(p) {
            assert(p.cells()[0] == p.anchor());
        }
    }
}

/// A piece that may legally be placed has a non-zero id.
pub proof fn lemma_legal_id_nonzero(g: Grid, inventory: Seq<Block>, p: Placement)
    requires
        legal(g, inventory, p),
    ensures
        p.block.id() != 0,
{
    assert(is_free(g, p.anchor()));
}

/// `g` is a rectangular board whose coordinates fit a `usize`.
pub open spec fn is_board(g: Grid) -> bool {
    exists|w: nat, h: nat| #[trigger] is_grid(g, w, h) && w <= usize::MAX && h <= usize::MAX
}

/// Every one of `ps` is legal on `g`.
pub open spec fn all_legal(g: Grid, inventory: Seq<Block>, ps: Seq<Placement>) -> bool {
    forall|i: int| 0 <= i < ps.len() ==> legal(g, inventory, #[trigger] ps[i])
}

/// The full boards that the search reaches from `g`, in the order in which
/// it finds them: `g` itself where it is full, else what it reaches through
/// each legal placement in turn.
pub open spec fn solutions(g: Grid, inventory: Seq<Block>) -> Seq<Grid>
    decreases free_count(g), 1nat, 0nat,
{
    if full(g) {
        seq![g]
    } else {
        branches(g, inventory, candidates(g, inventory))
    }
}

/// The full boards that the search reaches from `g` through the placements
/// `ps`, taken in their order.
pub open spec fn branches(g: Grid, inventory: Seq<Block>, ps: Seq<Placement>) -> Seq<Grid>
    decreases free_count(g), 0nat, ps.len(),
    when is_board(g) && all_legal(g, inventory, ps)
    via branches_terminate
{
    if ps.len() == 0 {
        Seq::empty()
    } else {
        branches(g, inventory, ps.drop_last()) + solutions(placed(g, ps.last()), inventory)
    }
}

/// A legal placement leaves fewer free cells, so the search below it is
/// shorter.
#[via_fn]
proof fn branches_terminate(g: Grid, inventory: Seq<Block>, ps: Seq<Placement>) {
    if ps.len() > 0 {
        let (w, h) = choose|w: nat, h: nat| #[trigger]
            is_grid(g, w, h) && w <= usize::MAX && h <= usize::MAX;
        let p = ps.last();
        assert(legal(g, inventory, p));
        lemma_legal_id_nonzero(g, inventory, p);
        lemma_place_lowers_free_count(g, w, h, p);
    }
}

/// The candidates of a board are all legal.
pub proof fn lemma_candidates_all_legal(g: Grid, inventory: Seq<Block>)
    requires
        is_board(g),
    ensures
        all_legal(g, inventory, candidates(g, inventory)),
{
    let (w, h) = choose|w: nat, h: nat| #[trigger]
        is_grid(g, w, h) && w <= usize::MAX && h <= usize::MAX;
    let ps = candidates(g, inventory);
    assert forall|i: int| 0 <= i < ps.len() implies legal(g, inventory, #[trigger] ps[i]) by {
        lemma_candidates_are_the_legal(g, w, h, inventory, ps[i]);
    }
}

/// A board is a board.
pub proof fn lemma_world_is_board<const W: usize, const H: usize>(world: World<W, H>)
    ensures
        is_grid(grid_of(world), W as nat, H as nat),
        is_board(grid_of(world)),
{
    assert(is_grid(grid_of(world), W as nat, H as nat));
}

/// Searches depth first from the board of `game` and appends every full
/// board that it reaches to `solved_worlds`, in the order in which it finds
/// them. The game is left as it was.
pub fn add_possibilities<const W: usize, const H: usize>(
    game: &mut Game<W, H>,
    solved_worlds: &mut Vec<World<W, H>>,
)
    ensures
        final(game).world == old(game).world,
        final(game).placements@ == old(game).placements@,
        final(game).inventory == old(game).inventory,
        grids_of(final(solved_worlds)@) == grids_of(old(solved_worlds)@) + solutions(
            old(game).grid(),
            old(game).inventory@,
        ),
    decreases free_count(old(game).grid()),
{
    let ghost g = game.grid();
    let ghost inventory = game.inventory@;
    let ghost found = grids_of(solved_worlds@);
    proof {
        lemma_world_is_board(game.world);
    }
    if world_filled(&game.world) {
        solved_worlds.push(game.world);
        assert(grids_of(solved_worlds@) =~= found + solutions(g, inventory));
        return ;
    }
    let possible_placements = next_possible_placements(game);
    if possible_placements.is_empty() {
        assert(grids_of(solved_worlds@) =~= found + solutions(g, inventory));
        return ;
    }
    proof {
        lemma_candidates_all_legal(g, inventory);
    }
    let mut i: usize = 0;
    while i < possible_placements.len()
        invariant
            i <= possible_placements@.len(),
            possible_placements@ == candidates(g, inventory),
            all_legal(g, inventory, possible_placements@),
            is_grid(g, W as nat, H as nat),
            is_board(g),
            game.grid() == g,
            game.world == old(game).world,
            g == old(game).grid(),
            game.placements@ == old(game).placements@,
            game.inventory == old(game).inventory,
            game.inventory@ == inventory,
            grids_of(solved_worlds@) == found + branches(
                g,
                inventory,
                possible_placements@.take(i as int),
            ),
        decreases possible_placements@.len() - i,
    {
        let placement = possible_placements[i];
        let ghost so_far = grids_of(solved_worlds@);
        proof {
            assert(legal(g, inventory, placement));
            lemma_legal_id_nonzero(g, inventory, placement);
            lemma_place_lowers_free_count(g, W as nat, H as nat, placement);
            lemma_place_then_clear(g, placement);
            lemma_stamp_is_grid(g, W as nat, H as nat, placement.cells(), placement.block.id());
        }
        game.place_block(placement);
        add_possibilities(game, solved_worlds);
        game.pop_block();
        proof {
            lemma_same_grid_same_world(game.world, old(game).world);
            assert(game.placements@ =~= old(game).placements@);
            let upto = possible_placements@.take(i as int);
            let next = possible_placements@.take(i + 1);
            assert(next.drop_last() =~= upto);
            assert(next.last() == placement);
            assert(all_legal(g, inventory, next));
            assert(branches(g, inventory, next) == branches(g, inventory, upto) + solutions(
                placed(g, placement),
                inventory,
            ));
            assert(grids_of(solved_worlds@) =~= found + branches(g, inventory, next));
        }
        i += 1;
    }
    proof {
        assert(possible_placements@.take(possible_placements@.len() as int)
            =~= possible_placements@);
    }
}

} // verus!
