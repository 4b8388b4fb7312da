use tiling_solver::filtering::{
    filter_out_duplicates, rotate_coordinates_left, rotate_coordinates_right, world_id,
};
use tiling_solver::World;

fn rotate<const N: usize>(world: &World<N, N>) -> World<N, N> {
    let mut turned = [[0usize; N]; N];
    for y in 0..N {
        for x in 0..N {
            turned[y][x] = world[N - 1 - x][y];
        }
    }
    turned
}

fn mirror<const N: usize>(world: &World<N, N>) -> World<N, N> {
    let mut mirrored = [[0usize; N]; N];
    for y in 0..N {
        for x in 0..N {
            mirrored[y][x] = world[y][N - 1 - x];
        }
    }
    mirrored
}

#[test]
fn key_is_the_least_reading_two_digits_a_cell() {
    assert_eq!(world_id(&[[1, 2], [3, 4]]), "01020304");
    assert_eq!(world_id(&[[3, 1], [4, 2]]), "01020304");
    assert_eq!(world_id(&[[4, 3], [2, 1]]), "01020304");
    assert_eq!(world_id(&[[1, 3], [2, 4]]), "01020304");
    assert_eq!(world_id(&[[1, 2], [4, 3]]), "01020403");
    assert_eq!(world_id(&[[5, 0, 1], [2, 3, 4], [7, 8, 9]]), "010005040302090807");
    assert_eq!(world_id(&[[0]]), "00");
}

#[test]
fn key_of_the_board_without_cells_is_empty() {
    let none: World<0, 0> = [];
    assert_eq!(world_id(&none), "");
}

#[test]
fn ids_of_three_digits_take_three_characters() {
    assert_eq!(world_id(&[[10, 2], [3, 100]]), "021001003");
    assert_eq!(world_id(&[[12, 12], [12, 12]]), "12121212");
}

#[test]
fn key_of_a_solved_board() {
    let world = [[1, 1, 2, 2], [1, 1, 2, 2], [3, 3, 4, 4], [3, 3, 4, 4]];
    assert_eq!(world_id(&world), "01010202010102020303040403030404");
}

#[test]
fn key_is_the_same_for_all_eight_symmetric_images() {
    let world = [[1, 1, 1, 2], [3, 1, 2, 2], [3, 3, 4, 2], [3, 4, 4, 4]];
    let key = world_id(&world);
    let mut image = world;
    for _ in 0..4 {
        image = rotate(&image);
        assert_eq!(world_id(&image), key);
        assert_eq!(world_id(&mirror(&image)), key);
    }
    assert_eq!(image, world);
}

#[test]
fn boards_that_are_no_images_of_each_other_have_different_keys() {
    let a = [[1, 1, 2, 2], [1, 1, 2, 2], [3, 3, 4, 4], [3, 3, 4, 4]];
    let b = [[1, 1, 2, 2], [1, 1, 2, 2], [4, 4, 3, 3], [4, 4, 3, 3]];
    assert_ne!(world_id(&a), world_id(&b));
}

#[test]
fn deduplication_keeps_the_first_of_each_key_in_order() {
    let a = [[1, 2], [3, 4]];
    let b = [[5, 6], [7, 8]];
    let c = [[1, 2], [4, 3]];
    let solutions = [rotate(&a), b, a, mirror(&b), c, rotate(&rotate(&b)), mirror(&a)];
    assert_eq!(filter_out_duplicates(&solutions), vec![rotate(&a), b, c]);
}

#[test]
fn deduplication_of_nothing_is_nothing() {
    let solutions: [World<3, 3>; 0] = [];
    assert!(filter_out_duplicates(&solutions).is_empty());
}

#[test]
fn deduplication_keeps_as_many_as_there_are_distinct_classes() {
    let a = [[1, 2, 3], [4, 5, 6], [7, 8, 9]];
    let b = [[1, 2, 3], [4, 5, 6], [7, 9, 8]];
    let c = [[9, 9, 9], [9, 9, 9], [9, 9, 1]];
    let mut solutions = Vec::new();
    for world in [a, b, c] {
        let mut image = world;
        for _ in 0..4 {
            image = rotate(&image);
            solutions.push(image);
            solutions.push(mirror(&image));
        }
    }
    assert_eq!(solutions.len(), 24);
    assert_eq!(filter_out_duplicates(&solutions).len(), 3);
}

#[test]
fn quarter_turns_of_coordinates() {
    assert_eq!(rotate_coordinates_right(1, 0, 4), (0, 2));
    assert_eq!(rotate_coordinates_left(1, 0, 4), (3, 1));
    assert_eq!(rotate_coordinates_right(0, 0, 1), (0, 0));
    assert_eq!(rotate_coordinates_left(7, 7, 8), (0, 7));
}

#[test]
fn a_left_turn_undoes_a_right_turn() {
    for x in 0..5 {
        for y in 0..5 {
            let (rx, ry) = rotate_coordinates_right(x, y, 5);
            assert_eq!(rotate_coordinates_left(rx, ry, 5), (x, y));
            let (lx, ly) = rotate_coordinates_left(x, y, 5);
            assert_eq!(rotate_coordinates_right(lx, ly, 5), (x, y));
        }
    }
}

#[test]
fn ids_of_three_digits_can_make_different_boards_share_a_key() {
    let a = [[0, 1], [10, 100]];
    let b = [[0, 1], [101, 0]];
    assert_eq!(world_id(&a), "000110100");
    assert_eq!(world_id(&b), "000110100");
    assert_eq!(filter_out_duplicates(&[a, b]), vec![a]);
}
