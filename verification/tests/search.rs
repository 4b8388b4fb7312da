use tiling_solver::block::Block;
use tiling_solver::discovery::{
    add_possibilities, cursor_position, geometry_fits, next_possible_placements, piece_on_board,
    world_filled,
};
use tiling_solver::game::{Game, Placement};
use tiling_solver::World;

fn thirteen_pieces() -> Vec<Block> {
    vec![
        Block::Line(1),
        Block::Bridge(2),
        Block::T(3),
        Block::Weird(4),
        Block::Corner(5),
        Block::DoubleL(6),
        Block::Square(7),
        Block::Baton(8),
        Block::Cursor(9),
        Block::Plus(10),
        Block::Z(11),
        Block::Stairs(12),
        Block::L(13),
    ]
}

#[test]
fn cursor_is_the_first_free_cell_in_row_major_order() {
    assert_eq!(cursor_position(&[[0usize; 8]; 8]), Some((0, 0)));
    assert_eq!(cursor_position(&[[1, 1, 0], [0, 0, 0]]), Some((2, 0)));
    assert_eq!(cursor_position(&[[1, 1, 1], [2, 0, 0]]), Some((1, 1)));
    assert_eq!(cursor_position(&[[1, 0, 1], [0, 2, 2]]), Some((1, 0)));
    assert_eq!(cursor_position(&[[1, 1, 1], [2, 2, 0]]), Some((2, 1)));
}

#[test]
fn a_full_board_has_no_cursor() {
    assert_eq!(cursor_position(&[[1, 1], [1, 1]]), None);
    assert!(world_filled(&[[1, 1], [1, 1]]));
    assert!(!world_filled(&[[1, 1], [1, 0]]));
    let none: World<0, 0> = [];
    assert_eq!(cursor_position(&none), None);
    assert!(world_filled(&none));
}

#[test]
fn piece_on_board_looks_at_every_cell() {
    let world = [[1, 1, 0], [0, 0, 7]];
    assert!(piece_on_board(&world, 1));
    assert!(piece_on_board(&world, 7));
    assert!(piece_on_board(&world, 0));
    assert!(!piece_on_board(&world, 2));
    assert!(!piece_on_board(&[[3, 3], [3, 3]], 0));
}

#[test]
fn geometry_fits_only_on_free_cells_of_the_board() {
    let world = [[0, 0, 0, 0], [0, 0, 0, 5], [0, 0, 0, 0]];
    let square = Block::Square(1).get_geometries();
    assert!(geometry_fits(&world, (0, 0), &square[0]));
    assert!(!geometry_fits(&world, (2, 0), &square[0]));
    assert!(!geometry_fits(&world, (3, 1), &square[0]));
    assert!(!geometry_fits(&world, (3, 2), &square[0]));
    assert!(!geometry_fits(&world, (1, 2), &square[0]));
    let baton = Block::Baton(1).get_geometries();
    assert!(!geometry_fits(&world, (1, 0), &baton[0]));
    assert!(geometry_fits(&world, (2, 1), &baton[0]));
    assert!(!geometry_fits(&world, (2, 0), &baton[0]));
    assert!(geometry_fits(&[[0usize; 4]; 2], (2, 0), &baton[0]));
}

#[test]
fn first_placements_on_the_empty_eight_by_eight_board() {
    let game: Game<8, 8> = Game::new(thirteen_pieces());
    let placements = next_possible_placements(&game);
    let expected = [
        (Block::Line(1), 0),
        (Block::Line(1), 1),
        (Block::Bridge(2), 0),
        (Block::Bridge(2), 1),
        (Block::Bridge(2), 2),
        (Block::Bridge(2), 3),
        (Block::T(3), 0),
        (Block::T(3), 3),
        (Block::Weird(4), 0),
        (Block::Weird(4), 3),
        (Block::Corner(5), 0),
        (Block::Corner(5), 1),
        (Block::Corner(5), 3),
        (Block::DoubleL(6), 0),
        (Block::DoubleL(6), 3),
        (Block::Square(7), 0),
        (Block::Baton(8), 2),
        (Block::Baton(8), 3),
        (Block::Baton(8), 5),
        (Block::Baton(8), 7),
        (Block::Cursor(9), 0),
        (Block::Cursor(9), 1),
        (Block::Cursor(9), 2),
        (Block::Cursor(9), 3),
        (Block::Cursor(9), 6),
        (Block::Z(11), 0),
        (Block::Z(11), 3),
        (Block::Z(11), 4),
        (Block::Z(11), 7),
        (Block::Stairs(12), 1),
        (Block::Stairs(12), 3),
        (Block::L(13), 0),
        (Block::L(13), 2),
        (Block::L(13), 3),
        (Block::L(13), 4),
        (Block::L(13), 5),
        (Block::L(13), 7),
    ];
    assert_eq!(placements.len(), 37);
    for (placement, (block, rotation)) in placements.iter().zip(expected.iter()) {
        assert_eq!(
            *placement,
            Placement { block: *block, rotation: *rotation, anchor_pos: (0, 0) }
        );
    }
}

#[test]
fn a_placed_piece_is_not_offered_again() {
    let inventory = vec![Block::Square(1), Block::Square(2), Block::L(3), Block::Line(4)];
    let mut game: Game<4, 4> = Game::new(inventory);
    game.place_block(Placement { block: Block::Square(1), rotation: 0, anchor_pos: (0, 0) });
    let placements = next_possible_placements(&game);
    assert_eq!(
        placements,
        vec![
            Placement { block: Block::Square(2), rotation: 0, anchor_pos: (2, 0) },
            Placement { block: Block::L(3), rotation: 0, anchor_pos: (2, 0) },
            Placement { block: Block::L(3), rotation: 1, anchor_pos: (2, 0) },
            Placement { block: Block::L(3), rotation: 4, anchor_pos: (2, 0) },
            Placement { block: Block::L(3), rotation: 5, anchor_pos: (2, 0) },
        ]
    );
}

#[test]
fn a_full_board_has_no_placements() {
    let game = Game {
        world: [[1, 1], [1, 1]],
        placements: Vec::new(),
        inventory: vec![Block::Square(2)],
    };
    assert!(next_possible_placements(&game).is_empty());
}

#[test]
fn a_full_board_is_its_own_only_solution() {
    let world = [[3, 3, 1], [3, 3, 1], [2, 2, 2]];
    let mut game = Game { world, placements: Vec::new(), inventory: thirteen_pieces() };
    let mut solved_worlds = Vec::new();
    add_possibilities(&mut game, &mut solved_worlds);
    assert_eq!(solved_worlds, vec![world]);
    assert_eq!(game.world, world);
    assert!(game.placements.is_empty());
}

#[test]
fn a_dead_end_gives_no_solution_and_leaves_the_board() {
    let world = [[0, 1, 1], [1, 1, 1], [1, 1, 1]];
    let mut game = Game { world, placements: Vec::new(), inventory: thirteen_pieces() };
    let mut solved_worlds = vec![[[9usize; 3]; 3]];
    add_possibilities(&mut game, &mut solved_worlds);
    assert_eq!(solved_worlds, vec![[[9usize; 3]; 3]]);
    assert_eq!(game.world, world);
    assert!(game.placements.is_empty());
}

#[test]
fn one_square_tiles_the_two_by_two_board() {
    let mut game: Game<2, 2> = Game::new(vec![Block::Square(1)]);
    let mut solved_worlds = Vec::new();
    add_possibilities(&mut game, &mut solved_worlds);
    assert_eq!(solved_worlds, vec![[[1, 1], [1, 1]]]);
    assert_eq!(game.world, [[0, 0], [0, 0]]);
    assert!(game.placements.is_empty());
}

#[test]
fn one_square_alone_does_not_tile_the_four_by_four_board() {
    let mut game: Game<4, 4> = Game::new(vec![Block::Square(1)]);
    let mut solved_worlds = Vec::new();
    add_possibilities(&mut game, &mut solved_worlds);
    assert!(solved_worlds.is_empty());
}

#[test]
fn two_l_pieces_tile_the_five_by_two_board_in_four_ways() {
    let mut game: Game<5, 2> = Game::new(vec![Block::L(1), Block::L(2)]);
    let mut solved_worlds = Vec::new();
    add_possibilities(&mut game, &mut solved_worlds);
    assert_eq!(
        solved_worlds,
        vec![
            [[1, 1, 1, 1, 2], [1, 2, 2, 2, 2]],
            [[1, 2, 2, 2, 2], [1, 1, 1, 1, 2]],
            [[2, 2, 2, 2, 1], [2, 1, 1, 1, 1]],
            [[2, 1, 1, 1, 1], [2, 2, 2, 2, 1]],
        ]
    );
}

#[test]
fn four_pieces_tile_the_five_by_four_board() {
    let inventory = vec![Block::L(1), Block::Cursor(2), Block::T(3), Block::Baton(4)];
    let mut game: Game<5, 4> = Game::new(inventory);
    let mut solved_worlds = Vec::new();
    add_possibilities(&mut game, &mut solved_worlds);
    assert_eq!(
        solved_worlds,
        vec![
            [[1, 1, 1, 1, 4], [2, 2, 3, 1, 4], [2, 2, 3, 4, 4], [2, 3, 3, 3, 4]],
            [[2, 3, 3, 3, 4], [2, 2, 3, 4, 4], [2, 2, 3, 1, 4], [1, 1, 1, 1, 4]],
            [[4, 3, 3, 3, 2], [4, 4, 3, 2, 2], [4, 1, 3, 2, 2], [4, 1, 1, 1, 1]],
            [[4, 1, 1, 1, 1], [4, 1, 3, 2, 2], [4, 4, 3, 2, 2], [4, 3, 3, 3, 2]],
        ]
    );
}

#[test]
fn every_solution_is_full_and_each_piece_covers_its_footprint() {
    let inventory = vec![Block::L(1), Block::L(2), Block::Cursor(3), Block::Cursor(4)];
    let mut game: Game<4, 5> = Game::new(inventory.clone());
    let mut solved_worlds = Vec::new();
    add_possibilities(&mut game, &mut solved_worlds);
    assert_eq!(solved_worlds.len(), 68);
    for world in solved_worlds.iter() {
        for block in inventory.iter() {
            let id = block.get_block_id();
            let count: usize =
                world.iter().map(|row| row.iter().filter(|v| **v == id).count()).sum();
            assert_eq!(count, 5);
        }
        assert!(world_filled(world));
    }
}

#[test]
fn a_piece_with_id_zero_is_never_placed() {
    let mut game: Game<2, 2> = Game::new(vec![Block::Square(0)]);
    assert!(next_possible_placements(&game).is_empty());
    let mut solved_worlds = Vec::new();
    add_possibilities(&mut game, &mut solved_worlds);
    assert!(solved_worlds.is_empty());
}
