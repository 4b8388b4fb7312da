use tiling_solver::draw::{border_on_offset, cell_color, cell_tile, draw_world, image_of, tile};

const BLANK: char = ' ';
const LEFT: char = '\u{1FB70}';
const RIGHT: char = '\u{1FB75}';
const TOP: char = '\u{1FB76}';
const BOTTOM: char = '\u{1FB7B}';
const TOP_LEFT: char = '\u{1FB7D}';
const TOP_RIGHT: char = '\u{1FB7E}';
const BOTTOM_LEFT: char = '\u{1FB7C}';
const BOTTOM_RIGHT: char = '\u{1FB7F}';

#[test]
fn colour_goes_by_the_id_in_rounds_of_seven() {
    assert_eq!(cell_color(0), (0, 0, 0));
    assert_eq!(cell_color(1), (241, 196, 15));
    assert_eq!(cell_color(2), (41, 128, 185));
    assert_eq!(cell_color(3), (230, 126, 34));
    assert_eq!(cell_color(4), (231, 76, 60));
    assert_eq!(cell_color(5), (46, 204, 113));
    assert_eq!(cell_color(6), (155, 89, 182));
    assert_eq!(cell_color(7), (26, 188, 156));
    assert_eq!(cell_color(8), (241, 196, 15));
    assert_eq!(cell_color(13), (155, 89, 182));
}

#[test]
fn border_where_the_neighbour_differs_or_is_off_the_board() {
    let world = [[1, 1, 2], [3, 1, 2]];
    assert!(border_on_offset(&world, (0, 0), &1, (0, -1)));
    assert!(border_on_offset(&world, (0, 0), &1, (-1, 0)));
    assert!(!border_on_offset(&world, (0, 0), &1, (1, 0)));
    assert!(border_on_offset(&world, (0, 0), &1, (0, 1)));
    assert!(!border_on_offset(&world, (1, 0), &1, (0, 1)));
    assert!(border_on_offset(&world, (1, 0), &1, (1, 0)));
    assert!(border_on_offset(&world, (2, 1), &2, (1, 0)));
    assert!(border_on_offset(&world, (2, 1), &2, (0, 1)));
    assert!(!border_on_offset(&world, (2, 1), &2, (0, -1)));
    assert!(!border_on_offset(&world, (0, 0), &2, (2, 1)));
}

#[test]
fn tile_of_a_cell_with_all_borders() {
    assert_eq!(
        tile([true, true, true, true]),
        [
            [TOP_LEFT, TOP, TOP, TOP_RIGHT],
            [LEFT, BLANK, BLANK, RIGHT],
            [BOTTOM_LEFT, BOTTOM, BOTTOM, BOTTOM_RIGHT],
        ]
    );
}

#[test]
fn tile_of_a_cell_without_borders_is_blank() {
    assert_eq!(tile([false, false, false, false]), [[BLANK; 4]; 3]);
}

#[test]
fn tiles_of_cells_with_some_borders() {
    assert_eq!(
        tile([true, false, false, false]),
        [[TOP, TOP, TOP, TOP], [BLANK; 4], [BLANK; 4]]
    );
    assert_eq!(
        tile([false, true, false, false]),
        [
            [BLANK, BLANK, BLANK, RIGHT],
            [BLANK, BLANK, BLANK, RIGHT],
            [BLANK, BLANK, BLANK, RIGHT],
        ]
    );
    assert_eq!(
        tile([false, false, true, true]),
        [
            [LEFT, BLANK, BLANK, BLANK],
            [LEFT, BLANK, BLANK, BLANK],
            [BOTTOM_LEFT, BOTTOM, BOTTOM, BOTTOM],
        ]
    );
    assert_eq!(
        tile([true, true, true, false]),
        [
            [TOP, TOP, TOP, TOP_RIGHT],
            [BLANK, BLANK, BLANK, RIGHT],
            [BOTTOM, BOTTOM, BOTTOM, BOTTOM_RIGHT],
        ]
    );
}

#[test]
fn a_free_cell_is_drawn_blank() {
    let world = [[0, 1], [1, 1]];
    assert_eq!(cell_tile(&world, 0, 0), [[BLANK; 4]; 3]);
    assert_eq!(
        cell_tile(&world, 1, 0),
        [
            [TOP_LEFT, TOP, TOP, TOP_RIGHT],
            [LEFT, BLANK, BLANK, RIGHT],
            [LEFT, BLANK, BLANK, RIGHT],
        ]
    );
}

#[test]
fn image_of_two_pieces_side_by_side() {
    let world = [[1, 2], [1, 2]];
    let image = image_of(&world);
    let column = vec![
        vec![TOP_LEFT, TOP, TOP, TOP_RIGHT],
        vec![LEFT, BLANK, BLANK, RIGHT],
        vec![LEFT, BLANK, BLANK, RIGHT],
        vec![LEFT, BLANK, BLANK, RIGHT],
        vec![LEFT, BLANK, BLANK, RIGHT],
        vec![BOTTOM_LEFT, BOTTOM, BOTTOM, BOTTOM_RIGHT],
    ];
    assert_eq!(image.len(), 6);
    for (line, half) in image.iter().zip(column.iter()) {
        let mut expected = half.clone();
        expected.extend(half.iter());
        assert_eq!(*line, expected);
    }
}

#[test]
fn image_has_three_lines_of_four_glyphs_for_each_cell() {
    let image = image_of(&[[0usize; 8]; 8]);
    assert_eq!(image.len(), 24);
    for line in image.iter() {
        assert_eq!(*line, vec![BLANK; 32]);
    }
    let image = image_of(&[[1usize; 3]; 2]);
    assert_eq!(image.len(), 6);
    assert_eq!(image[0].len(), 12);
}

#[test]
fn drawn_lines_hold_the_glyphs_of_the_image_in_order() {
    let world = [[1, 1, 2], [3, 1, 2], [3, 3, 0]];
    let image = image_of(&world);
    let lines = draw_world(&world);
    assert_eq!(lines.len(), 9);
    for (line, glyphs) in lines.iter().zip(image.iter()) {
        let mut rest = line.chars();
        for glyph in glyphs.iter() {
            assert!(rest.any(|c| c == *glyph));
        }
    }
}
