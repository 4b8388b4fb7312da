use crate::block::Offset;
use crate::discovery::shifted_within;
use crate::grid::{grid_of, in_grid, Grid, Position, World};
use colored::Colorize;
use vstd::prelude::*;
use vstd::string::StringExecFns;

verus! {

/// A colour, as red, green and blue.
pub type Color = (u8, u8, u8);

/// The colour in which the cells of a piece are drawn: one of seven, by the
/// piece's id; black for a free cell.
pub open spec fn color_of(value: usize) -> Color {
    if value == 0 {
        (0u8, 0u8, 0u8)
    } else if (value - 1) % 7 == 0 {
        (241u8, 196u8, 15u8)
    } else if (value - 1) % 7 == 1 {
        (41u8, 128u8, 185u8)
    } else if (value - 1) % 7 == 2 {
        (230u8, 126u8, 34u8)
    } else if (value - 1) % 7 == 3 {
        (231u8, 76u8, 60u8)
    } else if (value - 1) % 7 == 4 {
        (46u8, 204u8, 113u8)
    } else if (value - 1) % 7 == 5 {
        (155u8, 89u8, 182u8)
    } else {
        (26u8, 188u8, 156u8)
    }
}

/// The cell at `(dx, dy)` from `(x, y)` lies off the board or holds
/// something else than `same_as`: a border is drawn on that side.
pub open spec fn border_towards(g: Grid, x: int, y: int, same_as: usize, dx: int, dy: int) -> bool {
    !in_grid(g, (x + dx, y + dy)) || g[y + dy][x + dx] != same_as
}

/// The glyph at `(row, col)` of the three rows of four glyphs that draw a
/// cell with borders on the given sides.
pub open spec fn glyph(up: bool, right: bool, down: bool, left: bool, row: int, col: int) -> char {
    if row == 0 && up {
        if col == 0 && left {
            '\u{1FB7D}'
        } else if col == 3 && right {
            '\u{1FB7E}'
        } else {
            '\u{1FB76}'
        }
    } else if row == 2 && down {
        if col == 0 && left {
            '\u{1FB7C}'
        } else if col == 3 && right {
            '\u{1FB7F}'
        } else {
            '\u{1FB7B}'
        }
    } else if col == 0 && left {
        '\u{1FB70}'
    } else if col == 3 && right {
        '\u{1FB75}'
    } else {
        ' '
    }
}

/// The glyph at `(row, col)` of the drawing of the cell `(x, y)`: blank for
/// a free cell, else by the borders towards its four neighbours.
pub open spec fn cell_glyph(g: Grid, x: int, y: int, row: int, col: int) -> char {
    let value = g[y][x];
    if value == 0 {
        ' '
    } else {
        glyph(
            border_towards(g, x, y, value, 0, -1),
            border_towards(g, x, y, value, 1, 0),
            border_towards(g, x, y, value, 0, 1),
            border_towards(g, x, y, value, -1, 0),
            row,
            col,
        )
    }
}

/// The glyph of the image that draws row `row`, column `col` of the cell
/// `(x, y)`.
pub open spec fn image_at(image: Seq<Seq<char>>, x: int, y: int, row: int, col: int) -> char {
    image[3 * y + row][4 * x + col]
}

/// `image` is the drawing of `g`, a board of `h` rows of `w` cells: three
/// rows of four glyphs for each cell.
pub open spec fn is_image_of(image: Seq<Seq<char>>, g: Grid, w: int, h: int) -> bool {
    &&& image.len() == 3 * h
    &&& forall|line: int| 0 <= line < 3 * h ==> (#[trigger] image[line]).len() == 4 * w
    &&& forall|x: int, y: int, row: int, col: int|
        0 <= x < w && 0 <= y < h && 0 <= row < 3 && 0 <= col < 4 ==> #[trigger] image_at(
            image,
            x,
            y,
            row,
            col,
        ) == cell_glyph(g, x, y, row, col)
}

/// The part of `line` between the cuts `i` and `i + 1` holds the glyph `i`.
pub open spec fn part_holds(line: Seq<char>, glyphs: Seq<char>, cuts: Seq<int>, i: int) -> bool {
    &&& 0 <= cuts[i] <= cuts[i + 1] <= line.len()
    &&& line.subrange(cuts[i], cuts[i + 1]).contains(glyphs[i])
}

/// `cuts` divides `line` into one text for each of `glyphs`, in their
/// order, each text holding its glyph.
pub open spec fn cut_by(line: Seq<char>, glyphs: Seq<char>, cuts: Seq<int>) -> bool {
    &&& cuts.len() == glyphs.len() + 1
    &&& cuts[0] == 0
    &&& cuts[glyphs.len() as int] == line.len()
    &&& forall|i: int| 0 <= i < glyphs.len() ==> #[trigger] part_holds(line, glyphs, cuts, i)
}

/// `line` is made of one text for each of `glyphs`, in their order, each
/// text holding its glyph.
pub open spec fn shows(line: Seq<char>, glyphs: Seq<char>) -> bool {
    exists|cuts: Seq<int>| cut_by(line, glyphs, cuts)
}

/// The colour of a cell that holds `value`.
pub fn cell_color(value: usize) -> (color: Color)
    ensures
        color == color_of(value),
{
    if value == 0 {
        (0, 0, 0)
    } else {
        let n = (value - 1) % 7;
        if n == 0 {
            (241, 196, 15)
        } else if n == 1 {
            (41, 128, 185)
        } else if n == 2 {
            (230, 126, 34)
        } else if n == 3 {
            (231, 76, 60)
        } else if n == 4 {
            (46, 204, 113)
        } else if n == 5 {
            (155, 89, 182)
        } else {
            (26, 188, 156)
        }
    }
}

/// Whether a border is drawn between the cell at `pos` and the one at
/// `offset` from it: that one lies off the board, or holds something else
/// than `same_as`.
pub fn border_on_offset<const W: usize, const H: usize>(
    world: &World<W, H>,
    pos: Position,
    same_as: &usize,
    offset: Offset,
) -> (border: bool)
    ensures
        border == border_towards(
            grid_of(*world),
            pos.0 as int,
            pos.1 as int,
            *same_as,
            offset.0 as int,
            offset.1 as int,
        ),
{
    match shifted_within(pos.0, offset.0, W) {
        None => true,
        Some(x) => match shifted_within(pos.1, offset.1, H) {
            None => true,
            Some(y) => world[y][x] != *same_as,
        },
    }
}

/// The three rows of four glyphs that draw a cell with the given borders:
/// up, right, down, left.
pub fn tile(borders: [bool; 4]) -> (glyphs: [[char; 4]; 3])
    ensures
        forall|row: int, col: int|
            0 <= row < 3 && 0 <= col < 4 ==> #[trigger] glyphs[row][col] == glyph(
                borders[0],
                borders[1],
                borders[2],
                borders[3],
                row,
                col,
            ),
{
    let mut glyphs = [[' '; 4]; 3];
    if borders[1] {
        glyphs[0][3] = '\u{1FB75}';
        glyphs[1][3] = '\u{1FB75}';
        glyphs[2][3] = '\u{1FB75}';
    }
    if borders[3] {
        glyphs[0][0] = '\u{1FB70}';
        glyphs[1][0] = '\u{1FB70}';
        glyphs[2][0] = '\u{1FB70}';
    }
    if borders[0] {
        glyphs[0][1] = '\u{1FB76}';
        glyphs[0][2] = '\u{1FB76}';
        if borders[3] {
            glyphs[0][0] = '\u{1FB7D}';
        } else {
            glyphs[0][0] = '\u{1FB76}';
        }
        if borders[1] {
            glyphs[0][3] = '\u{1FB7E}';
        } else {
            glyphs[0][3] = '\u{1FB76}';
        }
    }
    if borders[2] {
        glyphs[2][1] = '\u{1FB7B}';
        glyphs[2][2] = '\u{1FB7B}';
        if borders[3] {
            glyphs[2][0] = '\u{1FB7C}';
        } else {
            glyphs[2][0] = '\u{1FB7B}';
        }
        if borders[1] {
            glyphs[2][3] = '\u{1FB7F}';
        } else {
            glyphs[2][3] = '\u{1FB7B}';
        }
    }
    glyphs
}

/// The glyphs that draw the cell `(x, y)`.
pub fn cell_tile<const W: usize, const H: usize>(world: &World<W, H>, x: usize, y: usize) -> (glyphs:
    [[char; 4]; 3])
    requires
        x < W,
        y < H,
    ensures
        forall|row: int, col: int|
            0 <= row < 3 && 0 <= col < 4 ==> #[trigger] glyphs[row][col] == cell_glyph(
                grid_of(*world),
                x as int,
                y as int,
                row,
                col,
            ),
{
    let value = world[y][x];
    if value == 0 {
        [[' '; 4]; 3]
    } else {
        let borders = [
            border_on_offset(world, (x, y), &value, (0, -1)),
            border_on_offset(world, (x, y), &value, (1, 0)),
            border_on_offset(world, (x, y), &value, (0, 1)),
            border_on_offset(world, (x, y), &value, (-1, 0)),
        ];
        tile(borders)
    }
}

/// The glyph of a line of the image that draws column `col` of the cell in
/// column `x`.
pub open spec fn line_at(line: Seq<char>, x: int, col: int) -> char {
    line[4 * x + col]
}

/// The lines of an image as sequences.
pub open spec fn lines_of(image: Seq<Vec<char>>) -> Seq<Seq<char>> {
    Seq::new(image.len(), |i: int| image[i]@)
}

/// The drawing of the board: for each row of cells three lines, with four
/// glyphs for each cell.
pub fn image_of<const W: usize, const H: usize>(world: &World<W, H>) -> (image: Vec<Vec<char>>)
    ensures
        is_image_of(lines_of(image@), grid_of(*world), W as int, H as int),
{
    let ghost g = grid_of(*world);
    let mut image: Vec<Vec<char>> = Vec::new();
    let mut y: usize = 0;
    while y < H
        invariant
            y <= H,
            g == grid_of(*world),
            image@.len() == 3 * y,
            forall|line: int| 0 <= line < 3 * y ==> (#[trigger] lines_of(image@)[line]).len() == 4 * W,
            forall|x: int, yy: int, row: int, col: int|
                0 <= x < W && 0 <= yy < y && 0 <= row < 3 && 0 <= col < 4 ==> #[trigger] image_at(
                    lines_of(image@),
                    x,
                    yy,
                    row,
                    col,
                ) == cell_glyph(g, x, yy, row, col),
        decreases H - y,
    {
        let mut tiles: Vec<[[char; 4]; 3]> = Vec::new();
        let mut x: usize = 0;
        while x < W
            invariant
                x <= W,
                y < H,
                g == grid_of(*world),
                tiles@.len() == x,
                forall|xx: int, row: int, col: int|
                    0 <= xx < x && 0 <= row < 3 && 0 <= col < 4 ==> #[trigger] tiles@[xx][row][col]
                        == cell_glyph(g, xx, y as int, row, col),
            decreases W - x,
        {
            let t = cell_tile(world, x, y);
            tiles.push(t);
            x += 1;
        }
        let mut row: usize = 0;
        while row < 3
            invariant
                row <= 3,
                y < H,
                g == grid_of(*world),
                tiles@.len() == W,
                forall|xx: int, r: int, col: int|
                    0 <= xx < W && 0 <= r < 3 && 0 <= col < 4 ==> #[trigger] tiles@[xx][r][col]
                        == cell_glyph(g, xx, y as int, r, col),
                image@.len() == 3 * y + row,
                forall|line: int|
                    0 <= line < 3 * y + row ==> (#[trigger] lines_of(image@)[line]).len() == 4 * W,
                forall|x: int, yy: int, r: int, col: int|
                    0 <= x < W && 0 <= yy < y && 0 <= r < 3 && 0 <= col < 4 ==> #[trigger] image_at(
                        lines_of(image@),
                        x,
                        yy,
                        r,
                        col,
                    ) == cell_glyph(g, x, yy, r, col),
                forall|x: int, r: int, col: int|
                    0 <= x < W && 0 <= r < row && 0 <= col < 4 ==> #[trigger] image_at(
                        lines_of(image@),
                        x,
                        y as int,
                        r,
                        col,
                    ) == cell_glyph(g, x, y as int, r, col),
            decreases 3 - row,
        {
            let mut line: Vec<char> = Vec::new();
            let mut x: usize = 0;
            while x < W
                invariant
                    x <= W,
                    row < 3,
                    tiles@.len() == W,
                    forall|xx: int, r: int, col: int|
                        0 <= xx < W && 0 <= r < 3 && 0 <= col < 4 ==> #[trigger] tiles@[xx][r][col]
                            == cell_glyph(g, xx, y as int, r, col),
                    line@.len() == 4 * x,
                    forall|xx: int, col: int|
                        0 <= xx < x && 0 <= col < 4 ==> #[trigger] line_at(line@, xx, col)
                            == cell_glyph(g, xx, y as int, row as int, col),
                decreases W - x,
            {
                let ghost before = line@;
                line.push(tiles[x][row][0]);
                line.push(tiles[x][row][1]);
                line.push(tiles[x][row][2]);
                line.push(tiles[x][row][3]);
                proof {
                    assert forall|xx: int, col: int|
                        0 <= xx < x + 1 && 0 <= col < 4 implies #[trigger] line_at(
                        line@,
                        xx,
                        col,
                    ) == cell_glyph(g, xx, y as int, row as int, col) by {
                        if xx < x {
                            assert(line_at(before, xx, col) == cell_glyph(
                                g,
                                xx,
                                y as int,
                                row as int,
                                col,
                            ));
                            assert(line@[4 * xx + col] == before[4 * xx + col]);
                        } else {
                            assert(line@[4 * xx + col] == tiles@[xx][row as int][col]);
                        }
                    }
                }
                x += 1;
            }
            let ghost before = lines_of(image@);
            let ghost added = line@;
            image.push(line);
            proof {
                let now = lines_of(image@);
                assert(now =~= before.push(added));
                assert forall|n: int| 0 <= n < 3 * y + row + 1 implies (#[trigger] now[n]).len() == 4
                    * W by {
                    if n < 3 * y + row {
                        assert(now[n] == before[n]);
                    }
                }
                assert forall|x: int, yy: int, r: int, col: int|
                    0 <= x < W && 0 <= yy < y && 0 <= r < 3 && 0 <= col < 4 implies #[trigger] image_at(
                    now,
                    x,
                    yy,
                    r,
                    col,
                ) == cell_glyph(g, x, yy, r, col) by {
                    assert(now[3 * yy + r] == before[3 * yy + r]);
                    assert(image_at(before, x, yy, r, col) == cell_glyph(g, x, yy, r, col));
                }
                assert forall|x: int, r: int, col: int|
                    0 <= x < W && 0 <= r < row + 1 && 0 <= col < 4 implies #[trigger] image_at(
                    now,
                    x,
                    y as int,
                    r,
                    col,
                ) == cell_glyph(g, x, y as int, r, col) by {
                    if r < row {
                        assert(now[3 * y + r] == before[3 * y + r]);
                        assert(image_at(before, x, y as int, r, col) == cell_glyph(
                            g,
                            x,
                            y as int,
                            r,
                            col,
                        ));
                    } else {
                        assert(now[3 * y + r] == added);
                        assert(line_at(added, x, col) == cell_glyph(g, x, y as int, row as int, col));
                    }
                }
            }
            row += 1;
        }
        y += 1;
    }
    image
}

/// `on_truecolor` and `truecolor` of the crate colored, and the `Display` of
/// what they give: the glyph as a text, with the escape codes for the two
/// colours around it where colored finds that the terminal takes them. That
/// depends on the environment, so the contract claims only what holds
/// either way: the text holds the glyph.
#[verifier::external_body]
fn paint(glyph: char, background: Color, foreground: Color) -> (painted: String)
    ensures
        painted@.contains(glyph),
{
    let text = glyph.to_string();
    let on = text.as_str().on_truecolor(background.0, background.1, background.2);
    format!("{}", on.truecolor(foreground.0, foreground.1, foreground.2))
}

/// The lines that draw the board on a terminal: each glyph of its image in
/// black on the colour of its cell.
pub fn draw_world<const W: usize, const H: usize>(world: &World<W, H>) -> (lines: Vec<String>)
    ensures
        exists|image: Seq<Seq<char>>|
            {
                &&& #[trigger] is_image_of(image, grid_of(*world), W as int, H as int)
                &&& lines@.len() == image.len()
                &&& forall|i: int| 0 <= i < lines@.len() ==> shows((#[trigger] lines@[i])@, image[i])
            },
{
    let image = image_of(world);
    let ghost glyphs = lines_of(image@);
    let mut lines: Vec<String> = Vec::new();
    let mut row: usize = 0;
    while row < image.len()
        invariant
            row <= image@.len(),
            glyphs == lines_of(image@),
            is_image_of(glyphs, grid_of(*world), W as int, H as int),
            lines@.len() == row,
            forall|i: int| 0 <= i < row ==> shows((#[trigger] lines@[i])@, glyphs[i]),
        decreases image@.len() - row,
    {
        let mut line = String::new();
        let mut col: usize = 0;
        let ghost mut cuts: Seq<int> = seq![0int];
        assert(glyphs[row as int].len() == 4 * W);
        while col < image[row].len()
            invariant
                row < image@.len(),
                col <= image@[row as int]@.len(),
                glyphs == lines_of(image@),
                image@.len() == 3 * H,
                image@[row as int]@.len() == 4 * W,
                cut_by(line@, glyphs[row as int].take(col as int), cuts),
            decreases image@[row as int]@.len() - col,
        {
            let color = cell_color(world[row / 3][col / 4]);
            let painted = paint(image[row][col], color, (0, 0, 0));
            let ghost before = line@;
            let ghost old_cuts = cuts;
            line.append(painted.as_str());
            proof {
                let upto = glyphs[row as int].take(col as int);
                let next = glyphs[row as int].take(col + 1);
                cuts = old_cuts.push(line@.len() as int);
                assert(line@.subrange(before.len() as int, line@.len() as int) =~= painted@);
                assert forall|i: int| 0 <= i < next.len() implies #[trigger] part_holds(
                    line@,
                    next,
                    cuts,
                    i,
                ) by {
                    if i < col {
                        assert(part_holds(before, upto, old_cuts, i));
                        assert(line@.subrange(cuts[i], cuts[i + 1]) =~= before.subrange(
                            old_cuts[i],
                            old_cuts[i + 1],
                        ));
                    }
                }
            }
            col += 1;
        }
        proof {
            assert(glyphs[row as int].take(image@[row as int]@.len() as int) =~= glyphs[row as int]);
        }
        lines.push(line);
        row += 1;
    }
    lines
}

} // verus!
