use tiling_solver::block::{Block, BlockGeometry};

fn all_blocks() -> Vec<Block> {
    vec![
        Block::Line(1),
        Block::Square(2),
        Block::Baton(3),
        Block::Bridge(4),
        Block::Plus(5),
        Block::Corner(6),
        Block::T(7),
        Block::L(8),
        Block::DoubleL(9),
        Block::Cursor(10),
        Block::Stairs(11),
        Block::Z(12),
        Block::Weird(13),
    ]
}

fn points(geometries: &[BlockGeometry], rotation: usize) -> Vec<(i32, i32)> {
    geometries[rotation].points.clone()
}

#[test]
fn block_id_is_the_field_of_the_variant() {
    for (n, block) in all_blocks().iter().enumerate() {
        assert_eq!(block.get_block_id(), n + 1);
    }
    assert_eq!(Block::Weird(0).get_block_id(), 0);
    assert_eq!(Block::Z(usize::MAX).get_block_id(), usize::MAX);
}

#[test]
fn each_piece_has_its_number_of_orientations() {
    let expected = [2, 1, 8, 4, 1, 4, 4, 8, 4, 8, 4, 8, 8];
    for (block, n) in all_blocks().iter().zip(expected.iter()) {
        assert_eq!(block.get_geometries().len(), *n);
    }
}

#[test]
fn geometries_do_not_depend_on_the_id() {
    let a = Block::Baton(1).get_geometries();
    let b = Block::Baton(77).get_geometries();
    assert_eq!(a.len(), b.len());
    for r in 0..a.len() {
        assert_eq!(a[r].points, b[r].points);
    }
}

#[test]
fn line_square_and_plus_geometries() {
    let line = Block::Line(1).get_geometries();
    assert_eq!(points(&line, 0), vec![(1, 0), (2, 0), (3, 0), (4, 0)]);
    assert_eq!(points(&line, 1), vec![(0, 1), (0, 2), (0, 3), (0, 4)]);
    let square = Block::Square(1).get_geometries();
    assert_eq!(points(&square, 0), vec![(1, 0), (1, 1), (0, 1)]);
    let plus = Block::Plus(1).get_geometries();
    assert_eq!(points(&plus, 0), vec![(-1, 1), (0, 1), (1, 1), (0, 2)]);
}

#[test]
fn some_geometries_of_the_larger_pieces() {
    let baton = Block::Baton(1).get_geometries();
    assert_eq!(points(&baton, 0), vec![(-2, 1), (-1, 1), (0, 1), (1, 1)]);
    assert_eq!(points(&baton, 7), vec![(0, 1), (1, 2), (0, 2), (0, 3)]);
    let l = Block::L(1).get_geometries();
    assert_eq!(points(&l, 6), vec![(-3, 1), (-2, 1), (-1, 1), (0, 1)]);
    let cursor = Block::Cursor(1).get_geometries();
    assert_eq!(points(&cursor, 5), vec![(1, 0), (-1, 0), (0, 1), (1, 1)]);
    let weird = Block::Weird(1).get_geometries();
    assert_eq!(points(&weird, 7), vec![(-1, 1), (0, 1), (1, 1), (1, 2)]);
    let stairs = Block::Stairs(1).get_geometries();
    assert_eq!(points(&stairs, 0), vec![(-1, 1), (0, 1), (-2, 2), (-1, 2)]);
}

#[test]
fn footprints_have_four_or_five_distinct_cells() {
    for block in all_blocks() {
        let size = if block == Block::Square(2) { 4 } else { 5 };
        for geometry in block.get_geometries() {
            let mut cells = vec![(0, 0)];
            cells.extend(geometry.points.iter().copied());
            assert_eq!(cells.len(), size);
            for i in 0..cells.len() {
                for j in 0..i {
                    assert_ne!(cells[i], cells[j]);
                }
                assert!(-3 <= cells[i].0 && cells[i].0 <= 4);
                assert!(0 <= cells[i].1 && cells[i].1 <= 4);
            }
        }
    }
}

#[test]
fn the_thirteen_pieces_cover_sixty_four_cells() {
    let mut total = 0;
    for block in all_blocks() {
        total += block.get_geometries()[0].points.len() + 1;
    }
    assert_eq!(total, 64);
}
