use crate::block::{lemma_catalog_shapes, Block};
use crate::discovery::{
    all_legal, branches, candidates, is_board, legal, lemma_candidates_all_legal,
    lemma_legal_id_nonzero, solutions,
};
use crate::game::{lemma_place_lowers_free_count, placed, Placement};
use crate::grid::{
    empty_grid, free_count, full, in_grid, is_free, is_grid, lemma_board_cells_finite,
    lemma_footprint_distinct, lemma_stamp_is_grid, board_cells, occurs, Grid,
};
use crate::validators::inventory_ok;
use vstd::prelude::*;
use vstd::set_lib::*;

verus! {

/// The positions of the cells that hold `id`.
pub open spec fn cells_with(g: Grid, id: usize) -> Set<(int, int)> {
    Set::new(|p: (int, int)| in_grid(g, p) && g[p.1][p.0] == id)
}

/// The number of cells that hold `id`.
pub open spec fn cell_count(g: Grid, id: usize) -> nat {
    cells_with(g, id).len()
}

/// In `s` the piece with `id` is accounted for: it covers as many cells as
/// it did on `g`, or it was not on `g` and covers as many cells as the
/// footprint of a piece of `inventory` with that id has.
pub open spec fn accounted(g: Grid, inventory: Seq<Block>, s: Grid, id: usize) -> bool {
    ||| cell_count(s, id) == cell_count(g, id)
    ||| {
        &&& !occurs(g, id)
        &&& exists|k: int|
            0 <= k < inventory.len() && (#[trigger] inventory[k]).id() == id && cell_count(s, id)
                == inventory[k].footprint_size()
    }
}

/// A legal placement gives its piece exactly the cells of its footprint and
/// leaves the cells of every other piece as they are.
pub proof fn lemma_placed_cells(g: Grid, w: nat, h: nat, inventory: Seq<Block>, p: Placement, id: usize)
    requires
        is_grid(g, w, h),
        legal(g, inventory, p),
        id != 0,
    ensures
        id == p.block.id() ==> cell_count(placed(g, p), id) == p.block.footprint_size(),
        id == p.block.id() ==> occurs(placed(g, p), id),
        id != p.block.id() ==> cells_with(placed(g, p), id) == cells_with(g, id),
        id != p.block.id() ==> (occurs(placed(g, p), id) <==> occurs(g, id)),
{
    let after = placed(g, p);
    let cells = p.cells();
    lemma_catalog_shapes(p.block, p.rotation as int);
    lemma_footprint_distinct(p.anchor(), p.block.shapes()[p.rotation as int]);
    assert forall|q: (int, int)| in_grid(g, q) implies after[q.1][q.0] == if cells.contains(q) {
        p.block.id()
    } else {
        g[q.1][q.0]
    } by {}
    if id == p.block.id() {
        assert forall|q: (int, int)| cells_with(after, id).contains(q) <==> cells.to_set().contains(
            q,
        ) by {
            if cells.to_set().contains(q) {
                let i = choose|i: int| 0 <= i < cells.len() && cells[i] == q;
                assert(is_free(g, cells[i]));
            }
            if cells_with(after, id).contains(q) && !cells.contains(q) {
                assert(in_grid(g, q) && g[q.1][q.0] == id);
            }
        }
        assert(cells_with(after, id) =~= cells.to_set());
        cells.unique_seq_to_set();
        assert(is_free(g, cells[0]));
        assert(in_grid(after, cells[0]) && after[cells[0].1][cells[0].0] == id);
    } else {
        assert forall|q: (int, int)| cells_with(after, id).contains(q) <==> cells_with(g, id).contains(
            q,
        ) by {
            if cells.contains(q) {
                let i = choose|i: int| 0 <= i < cells.len() && cells[i] == q;
                assert(is_free(g, cells[i]));
            }
        }
        assert(cells_with(after, id) =~= cells_with(g, id));
        if occurs(after, id) {
            let q = choose|q: (int, int)| in_grid(after, q) && #[trigger] after[q.1][q.0] == id;
            assert(cells_with(after, id).contains(q));
            assert(in_grid(g, q) && g[q.1][q.0] == id);
        }
        if occurs(g, id) {
            let q = choose|q: (int, int)| in_grid(g, q) && #[trigger] g[q.1][q.0] == id;
            assert(cells_with(g, id).contains(q));
            assert(in_grid(after, q) && after[q.1][q.0] == id);
        }
    }
}

/// What the search finds through a list of placements, it finds through one
/// of them.
pub proof fn lemma_found_through_one(g: Grid, inventory: Seq<Block>, ps: Seq<Placement>, s: Grid) -> (i:
    int)
    requires
        is_board(g),
        all_legal(g, inventory, ps),
        branches(g, inventory, ps).contains(s),
    ensures
        0 <= i < ps.len(),
        solutions(placed(g, ps[i]), inventory).contains(s),
    decreases ps.len(),
{
    let all = branches(g, inventory, ps);
    let n = choose|n: int| 0 <= n < all.len() && all[n] == s;
    if ps.len() == 0 {
        0
    } else {
        let front = ps.drop_last();
        let first = branches(g, inventory, front);
        let second = solutions(placed(g, ps.last()), inventory);
        assert(all == first + second);
        if n < first.len() {
            assert(first[n] == s);
            assert forall|i: int| 0 <= i < front.len() implies legal(
                g,
                inventory,
                #[trigger] front[i],
            ) by {
                assert(front[i] == ps[i]);
            }
            let i = lemma_found_through_one(g, inventory, front, s);
            assert(front[i] == ps[i]);
            i
        } else {
            assert(second[n - first.len()] == s);
            ps.len() - 1
        }
    }
}

/// Every board that the search finds from `g` is full, has the shape of
/// `g`, and accounts for every piece: the cells of a piece that was on `g`
/// are as they were, and a piece that the search placed covers exactly its
/// footprint.
pub proof fn lemma_solutions_are_tilings(
    g: Grid,
    w: nat,
    h: nat,
    inventory: Seq<Block>,
    s: Grid,
    id: usize,
)
    requires
        is_grid(g, w, h),
        w <= usize::MAX,
        h <= usize::MAX,
        solutions(g, inventory).contains(s),
        id != 0,
    ensures
        full(s),
        free_count(s) == 0,
        is_grid(s, w, h),
        accounted(g, inventory, s, id),
    decreases free_count(g),
{
    assert(is_board(g));
    if full(g) {
        let all = solutions(g, inventory);
        let n = choose|n: int| 0 <= n < all.len() && all[n] == s;
        assert(s == g);
        crate::grid::lemma_full_iff_no_free(g, w, h);
    } else {
        let ps = candidates(g, inventory);
        lemma_candidates_all_legal(g, inventory);
        let i = lemma_found_through_one(g, inventory, ps, s);
        let p = ps[i];
        let next = placed(g, p);
        assert(legal(g, inventory, p));
        lemma_legal_id_nonzero(g, inventory, p);
        lemma_place_lowers_free_count(g, w, h, p);
        lemma_stamp_is_grid(g, w, h, p.cells(), p.block.id());
        lemma_solutions_are_tilings(next, w, h, inventory, s, id);
        lemma_placed_cells(g, w, h, inventory, p, id);
        if id == p.block.id() {
            let k = choose|k: int| 0 <= k < inventory.len() && inventory[k] == p.block;
            assert(inventory[k].id() == id);
            assert(cell_count(s, id) == cell_count(next, id));
        } else if cell_count(s, id) != cell_count(next, id) {
            let k = choose|k: int|
                0 <= k < inventory.len() && (#[trigger] inventory[k]).id() == id && cell_count(s, id)
                    == inventory[k].footprint_size();
            assert(inventory[k].id() == id);
        }
    }
}

/// In every tiling that the search finds from the empty board with an
/// inventory of distinct non-zero ids, no cell is free, and each piece of the
/// inventory that is on the board covers exactly as many cells as its
/// footprint has.
pub proof fn lemma_tiling_piece_counts(w: nat, h: nat, inventory: Seq<Block>, s: Grid, k: int)
    requires
        w <= usize::MAX,
        h <= usize::MAX,
        inventory_ok(inventory),
        solutions(empty_grid(w, h), inventory).contains(s),
        0 <= k < inventory.len(),
    ensures
        full(s),
        free_count(s) == 0,
        occurs(s, inventory[k].id()) ==> cell_count(s, inventory[k].id())
            == inventory[k].footprint_size(),
        !occurs(s, inventory[k].id()) ==> cell_count(s, inventory[k].id()) == 0,
{
    let g = empty_grid(w, h);
    let id = inventory[k].id();
    assert(is_grid(g, w, h));
    lemma_solutions_are_tilings(g, w, h, inventory, s, id);
    assert(cells_with(g, id) =~= Set::<(int, int)>::empty());
    if !occurs(s, id) {
        assert(cells_with(s, id) =~= Set::<(int, int)>::empty());
    }
    if cell_count(s, id) != cell_count(g, id) {
        let j = choose|j: int|
            0 <= j < inventory.len() && (#[trigger] inventory[j]).id() == id && cell_count(s, id)
                == inventory[j].footprint_size();
        if j < k {
            assert(inventory[j].id() != inventory[k].id());
        } else if k < j {
            assert(inventory[k].id() != inventory[j].id());
        }
    } else if occurs(s, id) {
        let q = choose|q: (int, int)| in_grid(s, q) && #[trigger] s[q.1][q.0] == id;
        assert(cells_with(s, id).contains(q));
        lemma_board_cells_finite(w, h);
        assert(cells_with(s, id).subset_of(board_cells(w, h)));
        lemma_set_subset_finite(board_cells(w, h), cells_with(s, id));
        cells_with(s, id).lemma_len0_is_empty();
    }
}

} // verus!
