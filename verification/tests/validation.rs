use tiling_solver::block::Block;
use tiling_solver::validators::{valid_inventory, valid_pos, Valid};

#[test]
fn the_thirteen_pieces_are_a_valid_inventory() {
    let inventory = vec![
        Block::Line(1),
        Block::Bridge(2),
        Block::T(3),
        Block::Weird(4),
        Block::Corner(5),
        Block::DoubleL(6),
        Block::Square(7),
        Block::Baton(8),
        Block::Cursor(9),
        Block::Plus(10),
        Block::Z(11),
        Block::Stairs(12),
        Block::L(13),
    ];
    assert_eq!(valid_inventory(&inventory), Valid::Valid);
}

#[test]
fn empty_inventory_is_valid() {
    assert_eq!(valid_inventory(&Vec::new()), Valid::Valid);
}

#[test]
fn inventory_with_id_zero_is_rejected() {
    let inventory = vec![Block::Line(1), Block::Square(0)];
    assert_eq!(
        valid_inventory(&inventory),
        Valid::Invalid("Id 0 not allowed".to_string())
    );
}

#[test]
fn inventory_with_duplicate_id_is_rejected() {
    let inventory = vec![Block::Line(12), Block::Square(3), Block::T(12)];
    assert_eq!(
        valid_inventory(&inventory),
        Valid::Invalid("Duplicate id 12 found".to_string())
    );
}

#[test]
fn duplicate_message_spells_the_id_in_decimal() {
    let inventory = vec![Block::Plus(1005), Block::Plus(1005)];
    assert_eq!(
        valid_inventory(&inventory),
        Valid::Invalid("Duplicate id 1005 found".to_string())
    );
    let inventory = vec![Block::Plus(7), Block::Z(7)];
    assert_eq!(
        valid_inventory(&inventory),
        Valid::Invalid("Duplicate id 7 found".to_string())
    );
}

#[test]
fn the_first_fault_gives_the_reason() {
    let inventory = vec![Block::Line(4), Block::Square(4), Block::T(0)];
    assert_eq!(
        valid_inventory(&inventory),
        Valid::Invalid("Duplicate id 4 found".to_string())
    );
    let inventory = vec![Block::Line(0), Block::Square(4), Block::T(4)];
    assert_eq!(
        valid_inventory(&inventory),
        Valid::Invalid("Id 0 not allowed".to_string())
    );
}

#[test]
fn positions_on_the_board_are_valid() {
    assert_eq!(valid_pos::<8, 8>((0, 0)), Valid::Valid);
    assert_eq!(valid_pos::<8, 8>((7, 7)), Valid::Valid);
    assert_eq!(valid_pos::<8, 8>((3, 5)), Valid::Valid);
    assert_eq!(valid_pos::<4, 2>((3, 1)), Valid::Valid);
}

#[test]
fn positions_off_the_board_are_not_in_range() {
    let not_in_range = Valid::Invalid("Not in range".to_string());
    assert_eq!(valid_pos::<8, 8>((8, 0)), not_in_range);
    assert_eq!(valid_pos::<8, 8>((0, 8)), not_in_range);
    assert_eq!(valid_pos::<8, 8>((-1, 0)), not_in_range);
    assert_eq!(valid_pos::<8, 8>((0, -1)), not_in_range);
    assert_eq!(valid_pos::<4, 2>((1, 2)), not_in_range);
    assert_eq!(valid_pos::<0, 0>((0, 0)), not_in_range);
}
