use tiling_solver::block::{Block, BlockGeometry};
use tiling_solver::game::{Game, Placement};
use tiling_solver::World;

fn free_count<const W: usize, const H: usize>(world: &World<W, H>) -> usize {
    world.iter().map(|row| row.iter().filter(|v| **v == 0).count()).sum()
}

#[test]
fn a_new_game_has_an_empty_board() {
    let game: Game<8, 8> = Game::new(vec![Block::Line(1), Block::Square(2)]);
    assert_eq!(game.world, [[0usize; 8]; 8]);
    assert!(game.placements.is_empty());
    assert_eq!(game.inventory, vec![Block::Line(1), Block::Square(2)]);
}

#[test]
fn place_block_writes_the_id_into_the_footprint() {
    let mut game: Game<4, 4> = Game::new(vec![Block::Square(9)]);
    let placement = Placement { block: Block::Square(9), rotation: 0, anchor_pos: (1, 2) };
    game.place_block(placement);
    assert_eq!(
        game.world,
        [[0, 0, 0, 0], [0, 0, 0, 0], [0, 9, 9, 0], [0, 9, 9, 0]]
    );
    assert_eq!(game.placements, vec![placement]);
}

#[test]
fn place_block_takes_the_orientation_that_the_rotation_names() {
    let mut game: Game<5, 5> = Game::new(vec![Block::Line(1)]);
    game.place_block(Placement { block: Block::Line(1), rotation: 1, anchor_pos: (2, 0) });
    game.place_block(Placement { block: Block::Plus(3), rotation: 0, anchor_pos: (1, 1) });
    assert_eq!(
        game.world,
        [
            [0, 0, 1, 0, 0],
            [0, 3, 1, 0, 0],
            [3, 3, 3, 0, 0],
            [0, 3, 1, 0, 0],
            [0, 0, 1, 0, 0]
        ]
    );
}

#[test]
fn pop_block_on_an_empty_stack_gives_none() {
    let mut game: Game<3, 3> = Game::new(vec![]);
    assert_eq!(game.pop_block(), None);
    assert_eq!(game.world, [[0usize; 3]; 3]);
}

#[test]
fn each_placement_lowers_the_free_count_and_undo_restores_it() {
    let mut game: Game<8, 8> = Game::new(vec![Block::Line(1), Block::Square(2), Block::Baton(3)]);
    assert_eq!(free_count(&game.world), 64);
    game.place_block(Placement { block: Block::Line(1), rotation: 0, anchor_pos: (0, 0) });
    assert_eq!(free_count(&game.world), 59);
    game.place_block(Placement { block: Block::Square(2), rotation: 0, anchor_pos: (5, 0) });
    assert_eq!(free_count(&game.world), 55);
    game.place_block(Placement { block: Block::Baton(3), rotation: 0, anchor_pos: (2, 1) });
    assert_eq!(free_count(&game.world), 50);
    assert_eq!(
        game.pop_block(),
        Some(Placement { block: Block::Baton(3), rotation: 0, anchor_pos: (2, 1) })
    );
    assert_eq!(free_count(&game.world), 55);
    game.pop_block();
    assert_eq!(free_count(&game.world), 59);
    game.pop_block();
    assert_eq!(free_count(&game.world), 64);
    assert_eq!(game.pop_block(), None);
}

#[test]
fn place_then_pop_leaves_the_game_as_it_was() {
    let mut game: Game<8, 8> = Game::new(vec![Block::Z(4), Block::Weird(6)]);
    game.place_block(Placement { block: Block::Z(4), rotation: 0, anchor_pos: (0, 0) });
    let world = game.world;
    let placements = game.placements.clone();
    let inventory = game.inventory.clone();
    for rotation in 0..8 {
        let placement = Placement { block: Block::Weird(6), rotation, anchor_pos: (4, 3) };
        game.place_block(placement);
        assert_ne!(game.world, world);
        assert_eq!(game.placements.len(), 2);
        assert_eq!(game.pop_block(), Some(placement));
        assert_eq!(game.world, world);
        assert_eq!(game.placements, placements);
        assert_eq!(game.inventory, inventory);
    }
}

#[test]
fn set_values_writes_anchor_and_offsets() {
    let mut game: Game<3, 2> = Game::new(vec![]);
    let geometry = BlockGeometry { points: vec![(1, 0), (-1, 1)] };
    game.set_values(&(1, 0), &geometry, 5);
    assert_eq!(game.world, [[0, 5, 5], [5, 0, 0]]);
    game.set_values(&(1, 0), &geometry, 0);
    assert_eq!(game.world, [[0, 0, 0], [0, 0, 0]]);
}
