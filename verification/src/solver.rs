use crate::block::Block;
use crate::discovery::{
    add_possibilities, all_legal, branches, candidates, is_board, lemma_candidates_all_legal,
    solutions,
};
use crate::filtering::{distinct_firsts, filter_out_duplicates};
use crate::game::{placed, Game, Inventory, Placement};
use crate::grid::{all_in_grid, empty_grid, full, grid_of, grids_of, Grid, World};
use crate::validators::{fault_reason, faulty, ids_of, inventory_ok, valid_inventory, Valid};
use vstd::prelude::*;

verus! {

/// The lists of `parts`, one after the other.
pub open spec fn concat_all(parts: Seq<Seq<Grid>>) -> Seq<Grid>
    decreases parts.len(),
{
    if parts.len() == 0 {
        Seq::empty()
    } else {
        concat_all(parts.drop_last()) + parts.last()
    }
}

/// What the search reaches through each of the placements `ps`, one list for
/// each placement.
pub open spec fn branch_results(g: Grid, inventory: Seq<Block>, ps: Seq<Placement>) -> Seq<
    Seq<Grid>,
> {
    Seq::new(ps.len(), |i: int| solutions(placed(g, ps[i]), inventory))
}

/// A copy of `game` that shares nothing with it.
pub fn fork<const W: usize, const H: usize>(game: &Game<W, H>) -> (copy: Game<W, H>)
    ensures
        copy.world == game.world,
        copy.placements@ == game.placements@,
        copy.inventory@ == game.inventory@,
{
    let mut placements: Vec<Placement> = Vec::new();
    let mut i: usize = 0;
    while i < game.placements.len()
        invariant
            i <= game.placements@.len(),
            placements@ == game.placements@.take(i as int),
        decreases game.placements@.len() - i,
    {
        placements.push(game.placements[i]);
        proof {
            assert(placements@ =~= game.placements@.take(i + 1));
        }
        i += 1;
    }
    let mut inventory: Inventory = Vec::new();
    let mut k: usize = 0;
    while k < game.inventory.len()
        invariant
            k <= game.inventory@.len(),
            inventory@ == game.inventory@.take(k as int),
        decreases game.inventory@.len() - k,
    {
        inventory.push(game.inventory[k]);
        proof {
            assert(inventory@ =~= game.inventory@.take(k + 1));
        }
        k += 1;
    }
    proof {
        assert(game.placements@.take(game.placements@.len() as int) =~= game.placements@);
        assert(game.inventory@.take(game.inventory@.len() as int) =~= game.inventory@);
    }
    Game { world: game.world, placements, inventory }
}

/// The work of one branch of the search: on a copy of `game`, applies
/// `placement` and searches from there. `game` itself is not touched, so
/// branches may run side by side.
pub fn search_branch<const W: usize, const H: usize>(game: &Game<W, H>, placement: Placement) -> (found:
    Vec<World<W, H>>)
    requires
        placement.well_formed(),
        all_in_grid(game.grid(), placement.cells()),
    ensures
        grids_of(found@) == solutions(placed(game.grid(), placement), game.inventory@),
{
    let mut g = fork(game);
    proof {
        assert(g.grid() == game.grid());
    }
    g.place_block(placement);
    let mut solved_worlds: Vec<World<W, H>> = Vec::new();
    add_possibilities(&mut g, &mut solved_worlds);
    proof {
        assert(grids_of(Seq::<World<W, H>>::empty()) =~= Seq::<Grid>::empty());
        assert(grids_of(solved_worlds@) =~= solutions(
            placed(game.grid(), placement),
            game.inventory@,
        ));
    }
    solved_worlds
}

/// Puts the results of the branches together, in the order of the branches.
pub fn merge_branches<const W: usize, const H: usize>(found: Vec<Vec<World<W, H>>>) -> (solved_worlds:
    Vec<World<W, H>>)
    ensures
        grids_of(solved_worlds@) == concat_all(
            Seq::new(found@.len(), |i: int| grids_of(found@[i]@)),
        ),
{
    let ghost parts = Seq::new(found@.len(), |i: int| grids_of(found@[i]@));
    let mut solved_worlds: Vec<World<W, H>> = Vec::new();
    let mut i: usize = 0;
    proof {
        assert(parts.take(0) =~= Seq::<Seq<Grid>>::empty());
        assert(grids_of(solved_worlds@) =~= concat_all(parts.take(0)));
    }
    while i < found.len()
        invariant
            i <= found@.len(),
            parts == Seq::new(found@.len(), |i: int| grids_of(found@[i]@)),
            grids_of(solved_worlds@) == concat_all(parts.take(i as int)),
        decreases found@.len() - i,
    {
        let ghost before = grids_of(solved_worlds@);
        let mut k: usize = 0;
        while k < found[i].len()
            invariant
                i < found@.len(),
                k <= found@[i as int]@.len(),
                parts == Seq::new(found@.len(), |i: int| grids_of(found@[i]@)),
                grids_of(solved_worlds@) == before + parts[i as int].take(k as int),
            decreases found@[i as int]@.len() - k,
        {
            let ghost so_far = grids_of(solved_worlds@);
            solved_worlds.push(found[i][k]);
            proof {
                let part = parts[i as int];
                assert(part[k as int] == grid_of(found@[i as int]@[k as int]));
                assert(grids_of(solved_worlds@) =~= so_far.push(part[k as int]));
                assert(part.take(k + 1) =~= part.take(k as int).push(part[k as int]));
                assert(grids_of(solved_worlds@) =~= before + part.take(k + 1));
            }
            k += 1;
        }
        proof {
            assert(parts[i as int].take(found@[i as int]@.len() as int) =~= parts[i as int]);
            assert(parts.take(i + 1).drop_last() =~= parts.take(i as int));
        }
        i += 1;
    }
    proof {
        assert(parts.take(found@.len() as int) =~= parts);
    }
    solved_worlds
}

/// Searching through a list of placements one after the other finds what
/// the branches of those placements find, put together in their order.
pub proof fn lemma_branches_are_concat(g: Grid, inventory: Seq<Block>, ps: Seq<Placement>)
    requires
        is_board(g),
        all_legal(g, inventory, ps),
    ensures
        branches(g, inventory, ps) == concat_all(branch_results(g, inventory, ps)),
    decreases ps.len(),
{
    if ps.len() > 0 {
        let front = ps.drop_last();
        assert(all_legal(g, inventory, front)) by {
            assert forall|i: int| 0 <= i < front.len() implies crate::discovery::legal(
                g,
                inventory,
                #[trigger] front[i],
            ) by {
                assert(front[i] == ps[i]);
            }
        }
        lemma_branches_are_concat(g, inventory, front);
        assert(branch_results(g, inventory, ps).drop_last() =~= branch_results(g, inventory, front));
    } else {
        assert(branch_results(g, inventory, ps) =~= Seq::<Seq<Grid>>::empty());
    }
}

/// The search that is split at its first level, each legal first placement
/// searched as a branch of its own and the results merged in order, finds
/// what the search in one piece finds, in the same order, and so the same
/// after deduplication. This holds of every board with a free cell; a full
/// board has no branch, and the search in one piece finds the board itself.
pub proof fn lemma_split_search_finds_the_same(g: Grid, inventory: Seq<Block>)
    requires
        is_board(g),
        !full(g),
    ensures
        concat_all(branch_results(g, inventory, candidates(g, inventory))) == solutions(
            g,
            inventory,
        ),
        distinct_firsts(concat_all(branch_results(g, inventory, candidates(g, inventory))))
            == distinct_firsts(solutions(g, inventory)),
{
    lemma_candidates_all_legal(g, inventory);
    lemma_branches_are_concat(g, inventory, candidates(g, inventory));
}

/// All the tilings of the empty square board of side `N` by pieces of
/// `inventory`, one for each canonical key, the first found of each. An
/// inventory with a zero or a repeated id is refused, with the reason.
pub fn calculate_sync<const N: usize>(inventory: Inventory) -> (outcome: Result<
    Vec<World<N, N>>,
    String,
>)
    ensures
        outcome is Ok <==> inventory_ok(inventory@),
        outcome matches Ok(worlds) ==> grids_of(worlds@) == distinct_firsts(
            solutions(empty_grid(N as nat, N as nat), inventory@),
        ),
        outcome matches Err(reason) ==> exists|i: int|
            {
                &&& 0 <= i < inventory@.len()
                &&& #[trigger] faulty(ids_of(inventory@), i)
                &&& forall|j: int| 0 <= j < i ==> !faulty(ids_of(inventory@), j)
                &&& reason@ == fault_reason(inventory@[i].id())
            },
{
    match valid_inventory(&inventory) {
        Valid::Invalid(reason) => Err(reason),
        Valid::Valid => {
            let ghost pieces = inventory@;
            let mut game: Game<N, N> = Game::new(inventory);
            let mut solved_worlds: Vec<World<N, N>> = Vec::new();
            add_possibilities(&mut game, &mut solved_worlds);
            proof {
                assert(grids_of(Seq::<World<N, N>>::empty()) =~= Seq::<Grid>::empty());
                assert(grids_of(solved_worlds@) =~= solutions(empty_grid(N as nat, N as nat), pieces));
            }
            Ok(filter_out_duplicates(solved_worlds.as_slice()))
        },
    }
}

} // verus!
