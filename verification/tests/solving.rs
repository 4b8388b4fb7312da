use tiling_solver::block::Block;
use tiling_solver::discovery::{add_possibilities, next_possible_placements};
use tiling_solver::filtering::{filter_out_duplicates, world_id};
use tiling_solver::game::Game;
use tiling_solver::solver::{calculate_sync, fork, merge_branches, search_branch};
use tiling_solver::World;

fn four_squares() -> Vec<Block> {
    vec![Block::Square(1), Block::Square(2), Block::Square(3), Block::Square(4)]
}

fn five_lines() -> Vec<Block> {
    vec![Block::Line(1), Block::Line(2), Block::Line(3), Block::Line(4), Block::Line(5)]
}

fn by_branches<const N: usize>(inventory: Vec<Block>) -> Vec<World<N, N>> {
    let game: Game<N, N> = Game::new(inventory);
    let mut found = Vec::new();
    for placement in next_possible_placements(&game) {
        found.push(search_branch(&game, placement));
    }
    merge_branches(found)
}

fn in_one_piece<const N: usize>(inventory: Vec<Block>) -> Vec<World<N, N>> {
    let mut game: Game<N, N> = Game::new(inventory);
    let mut solved_worlds = Vec::new();
    add_possibilities(&mut game, &mut solved_worlds);
    solved_worlds
}

#[test]
fn four_squares_tile_the_four_by_four_board_in_one_grid() {
    let raw: Vec<World<4, 4>> = in_one_piece(four_squares());
    assert_eq!(raw.len(), 24);
    for world in raw.iter() {
        for y in 0..4 {
            for x in 0..4 {
                assert_eq!(world[y][x], world[y / 2 * 2][x / 2 * 2]);
                assert_ne!(world[y][x], 0);
            }
        }
        let mut corners = [world[0][0], world[0][2], world[2][0], world[2][2]];
        corners.sort();
        assert_eq!(corners, [1, 2, 3, 4]);
    }
    assert_eq!(raw[0], [[1, 1, 2, 2], [1, 1, 2, 2], [3, 3, 4, 4], [3, 3, 4, 4]]);
    assert_eq!(raw[1], [[1, 1, 2, 2], [1, 1, 2, 2], [4, 4, 3, 3], [4, 4, 3, 3]]);
    assert_eq!(raw[2], [[1, 1, 3, 3], [1, 1, 3, 3], [2, 2, 4, 4], [2, 2, 4, 4]]);
}

#[test]
fn four_squares_give_three_tilings_up_to_symmetry() {
    let unique = calculate_sync::<4>(four_squares());
    assert_eq!(
        unique,
        Ok(vec![
            [[1, 1, 2, 2], [1, 1, 2, 2], [3, 3, 4, 4], [3, 3, 4, 4]],
            [[1, 1, 2, 2], [1, 1, 2, 2], [4, 4, 3, 3], [4, 4, 3, 3]],
            [[1, 1, 3, 3], [1, 1, 3, 3], [4, 4, 2, 2], [4, 4, 2, 2]],
        ])
    );
}

#[test]
fn one_square_gives_the_one_tiling_of_the_two_by_two_board() {
    assert_eq!(calculate_sync::<2>(vec![Block::Square(6)]), Ok(vec![[[6, 6], [6, 6]]]));
}

#[test]
fn five_lines_give_sixty_tilings_of_the_five_by_five_board() {
    let raw: Vec<World<5, 5>> = in_one_piece(five_lines());
    assert_eq!(raw.len(), 240);
    let unique = calculate_sync::<5>(five_lines()).unwrap();
    assert_eq!(unique.len(), 60);
    assert_eq!(unique[0], [[1; 5], [2; 5], [3; 5], [4; 5], [5; 5]]);
    assert_eq!(unique[1], [[1; 5], [2; 5], [3; 5], [5; 5], [4; 5]]);
    assert_eq!(unique, filter_out_duplicates(&raw));
}

#[test]
fn an_inventory_that_cannot_tile_gives_no_solution() {
    assert_eq!(calculate_sync::<4>(vec![Block::Square(1)]), Ok(vec![]));
    assert_eq!(calculate_sync::<3>(vec![Block::Line(1), Block::Square(2)]), Ok(vec![]));
}

#[test]
fn the_board_without_cells_is_solved_as_it_is() {
    let none: World<0, 0> = [];
    assert_eq!(calculate_sync::<0>(vec![Block::Square(1)]), Ok(vec![none]));
}

#[test]
fn an_invalid_inventory_is_refused_with_the_reason() {
    assert_eq!(
        calculate_sync::<4>(vec![Block::Square(1), Block::Square(0)]),
        Err("Id 0 not allowed".to_string())
    );
    assert_eq!(
        calculate_sync::<4>(vec![Block::Square(31), Block::Line(2), Block::Square(31)]),
        Err("Duplicate id 31 found".to_string())
    );
}

#[test]
fn the_search_by_branches_finds_what_the_search_in_one_piece_finds() {
    let one: Vec<World<4, 4>> = in_one_piece(four_squares());
    let split: Vec<World<4, 4>> = by_branches(four_squares());
    assert_eq!(split, one);
    let one: Vec<World<5, 5>> = in_one_piece(five_lines());
    let split: Vec<World<5, 5>> = by_branches(five_lines());
    assert_eq!(split, one);
    assert_eq!(filter_out_duplicates(&split), filter_out_duplicates(&one));
    let mut keys: Vec<String> = filter_out_duplicates(&split).iter().map(world_id).collect();
    let mut expected: Vec<String> =
        calculate_sync::<5>(five_lines()).unwrap().iter().map(world_id).collect();
    keys.sort();
    expected.sort();
    assert_eq!(keys, expected);
}

#[test]
fn a_branch_searches_below_its_placement_only() {
    let game: Game<4, 4> = Game::new(four_squares());
    let placements = next_possible_placements(&game);
    assert_eq!(placements.len(), 4);
    for (n, placement) in placements.iter().enumerate() {
        let found = search_branch(&game, *placement);
        assert_eq!(found.len(), 6);
        for world in found.iter() {
            assert_eq!(world[0][0], n + 1);
        }
    }
    assert_eq!(game.world, [[0usize; 4]; 4]);
    assert!(game.placements.is_empty());
}

#[test]
fn merging_keeps_the_order_of_the_branches() {
    let a = [[1usize, 1], [1, 1]];
    let b = [[2usize, 2], [2, 2]];
    let c = [[3usize, 3], [3, 3]];
    assert_eq!(merge_branches(vec![vec![a, b], vec![], vec![c], vec![a]]), vec![a, b, c, a]);
    assert_eq!(merge_branches::<2, 2>(vec![]), Vec::<World<2, 2>>::new());
}

#[test]
fn a_fork_is_a_copy() {
    let mut game: Game<2, 3> = Game::new(vec![Block::Square(1), Block::Line(2)]);
    game.place_block(tiling_solver::Placement {
        block: Block::Square(1),
        rotation: 0,
        anchor_pos: (0, 1),
    });
    let copy = fork(&game);
    assert_eq!(copy.world, game.world);
    assert_eq!(copy.placements, game.placements);
    assert_eq!(copy.inventory, game.inventory);
}
