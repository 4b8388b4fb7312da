use crate::filtering::{
    canonical_key, distinct_firsts, grid_text, lemma_canonical_key_is_least, lemma_distinct_firsts,
    lemma_key_of_transformed, mirrored, reading, reading_texts, rotated, row_text, transformed,
};
use crate::grid::{is_grid, Grid};
use crate::text::{decimal, digit_char, is_least, padded};
use vstd::prelude::*;

verus! {

/// One of the eight symmetries of a square, as what it does to coordinates:
/// whether it swaps them, and whether it then flips each.
pub struct Symmetry {
    pub flip_x: bool,
    pub flip_y: bool,
    pub swap: bool,
}

/// The image of the square board `g` under `s`.
pub open spec fn image(g: Grid, s: Symmetry) -> Grid {
    let n = g.len() as int;
    Seq::new(
        g.len(),
        |y: int|
            Seq::new(
                g.len(),
                |x: int|
                    {
                        let u = if s.swap {
                            y
                        } else {
                            x
                        };
                        let v = if s.swap {
                            x
                        } else {
                            y
                        };
                        g[if s.flip_y {
                            n - 1 - v
                        } else {
                            v
                        }][if s.flip_x {
                            n - 1 - u
                        } else {
                            u
                        }]
                    },
            ),
    )
}

/// The symmetry that gives of a board the image under `second` of its image
/// under `first`.
pub open spec fn composed(first: Symmetry, second: Symmetry) -> Symmetry {
    Symmetry {
        flip_x: first.flip_x != (if first.swap {
            second.flip_y
        } else {
            second.flip_x
        }),
        flip_y: first.flip_y != (if first.swap {
            second.flip_x
        } else {
            second.flip_y
        }),
        swap: first.swap != second.swap,
    }
}

/// The symmetry that undoes `s`.
pub open spec fn inverse(s: Symmetry) -> Symmetry {
    if s.swap {
        Symmetry { flip_x: s.flip_y, flip_y: s.flip_x, swap: true }
    } else {
        s
    }
}

/// The symmetry of a re-reading.
pub open spec fn reading_symmetry(turns: int, kind: int) -> Symmetry {
    let straight = if turns == 0 {
        Symmetry { flip_x: false, flip_y: false, swap: false }
    } else if turns == 1 {
        Symmetry { flip_x: false, flip_y: true, swap: true }
    } else if turns == 2 {
        Symmetry { flip_x: true, flip_y: true, swap: false }
    } else {
        Symmetry { flip_x: true, flip_y: false, swap: true }
    };
    if kind == 0 {
        straight
    } else if kind == 1 {
        Symmetry { flip_x: straight.flip_x, flip_y: !straight.flip_y, swap: straight.swap }
    } else {
        Symmetry { flip_x: straight.flip_y, flip_y: straight.flip_x, swap: !straight.swap }
    }
}

/// The symmetry of `turns` quarter turns, then a mirroring where `mirror`
/// says so.
pub open spec fn turns_symmetry(turns: nat, mirror: bool) -> Symmetry {
    let t = turns % 4;
    let turned = if t == 0 {
        Symmetry { flip_x: false, flip_y: false, swap: false }
    } else if t == 1 {
        Symmetry { flip_x: false, flip_y: true, swap: true }
    } else if t == 2 {
        Symmetry { flip_x: true, flip_y: true, swap: false }
    } else {
        Symmetry { flip_x: true, flip_y: false, swap: true }
    };
    if mirror {
        composed(turned, Symmetry { flip_x: true, flip_y: false, swap: false })
    } else {
        turned
    }
}

/// `b` is one of the eight symmetric images of the square board `a`: `a`
/// after up to three quarter turns, mirrored or not.
pub open spec fn same_up_to_symmetry(a: Grid, b: Grid) -> bool {
    exists|turns: nat, mirror: bool| turns < 4 && b == #[trigger] transformed(a, turns, mirror)
}

/// Every cell of `g` is below `bound`.
pub open spec fn cells_below(g: Grid, bound: usize) -> bool {
    forall|y: int, x: int|
        0 <= y < g.len() && 0 <= x < g[y].len() ==> (#[trigger] g[y][x]) < bound
}

/// An image of a square board is a square board of the same side, with the
/// same cells in other places.
pub proof fn lemma_image_is_grid(g: Grid, n: nat, s: Symmetry)
    requires
        is_grid(g, n, n),
    ensures
        is_grid(image(g, s), n, n),
        forall|bound: usize| cells_below(g, bound) ==> cells_below(image(g, s), bound),
{
}

/// The image of an image is an image.
pub proof fn lemma_image_of_image(g: Grid, n: nat, first: Symmetry, second: Symmetry)
    requires
        is_grid(g, n, n),
    ensures
        image(image(g, first), second) == image(g, composed(first, second)),
{
    assert(image(image(g, first), second) =~~= image(g, composed(first, second)));
}

/// The inverse of a symmetry undoes it.
pub proof fn lemma_inverse_undoes(g: Grid, n: nat, s: Symmetry)
    requires
        is_grid(g, n, n),
    ensures
        image(image(g, s), inverse(s)) == g,
{
    assert(image(image(g, s), inverse(s)) =~~= g);
}

/// A re-reading is the image under its symmetry.
pub proof fn lemma_reading_is_image(g: Grid, n: nat, turns: int, kind: int)
    requires
        is_grid(g, n, n),
        0 <= turns < 4,
        0 <= kind < 3,
    ensures
        reading(g, turns, kind) == image(g, reading_symmetry(turns, kind)),
{
    assert(reading(g, turns, kind) =~~= image(g, reading_symmetry(turns, kind)));
}

/// Quarter turns and a mirroring give the image under their symmetry.
pub proof fn lemma_transformed_is_image(g: Grid, n: nat, turns: nat, mirror: bool)
    requires
        is_grid(g, n, n),
        turns < 4,
    ensures
        transformed(g, turns, mirror) == image(g, turns_symmetry(turns, mirror)),
    decreases turns,
{
    let quarter = Symmetry { flip_x: false, flip_y: true, swap: true };
    let flip = Symmetry { flip_x: true, flip_y: false, swap: false };
    assert(rotated(g) =~~= image(g, quarter));
    if turns == 0 {
        if mirror {
            assert(mirrored(g) =~~= image(g, flip));
        } else {
            assert(g =~~= image(g, turns_symmetry(0, false)));
        }
    } else {
        lemma_image_is_grid(g, n, quarter);
        lemma_transformed_is_image(rotated(g), n, (turns - 1) as nat, mirror);
        lemma_image_of_image(g, n, quarter, turns_symmetry((turns - 1) as nat, mirror));
    }
}

/// Every image is the board after some quarter turns, mirrored or not.
pub proof fn lemma_image_is_transformed(g: Grid, n: nat, s: Symmetry)
    requires
        is_grid(g, n, n),
    ensures
        same_up_to_symmetry(g, image(g, s)),
{
    let turns: nat = if s.swap {
        if s.flip_x == s.flip_y {
            if s.flip_x {
                3
            } else {
                1
            }
        } else if s.flip_y {
            1
        } else {
            3
        }
    } else if s.flip_x == s.flip_y {
        if s.flip_x {
            2
        } else {
            0
        }
    } else if s.flip_x {
        0
    } else {
        2
    };
    let mirror = if s.swap {
        s.flip_x == s.flip_y
    } else {
        s.flip_x != s.flip_y
    };
    lemma_transformed_is_image(g, n, turns, mirror);
    assert(turns_symmetry(turns, mirror) == s);
    assert(image(g, s) == transformed(g, turns, mirror));
}

/// Boards that are symmetric images of each other have the same canonical
/// key.
pub proof fn lemma_symmetric_boards_share_key(a: Grid, b: Grid, n: nat)
    requires
        is_grid(a, n, n),
        same_up_to_symmetry(a, b),
    ensures
        canonical_key(a) == canonical_key(b),
{
    let (turns, mirror) = choose|turns: nat, mirror: bool|
        turns < 4 && b == #[trigger] transformed(a, turns, mirror);
    lemma_key_of_transformed(a, n, turns, mirror);
}

/// Numbers below a hundred with the same two digits are the same.
proof fn lemma_padded_injective(a: nat, b: nat)
    requires
        a < 100,
        b < 100,
        padded(a) == padded(b),
    ensures
        a == b,
        padded(a).len() == 2,
{
    reveal_with_fuel(decimal, 2);
    let pa = padded(a);
    let pb = padded(b);
    assert(pa.len() == 2 && pb.len() == 2);
    assert(pa[0] == digit_char((a / 10) as int));
    assert(pa[1] == digit_char((a % 10) as int));
    assert(pb[0] == digit_char((b / 10) as int));
    assert(pb[1] == digit_char((b % 10) as int));
    assert(pa[0] == pb[0]);
    assert(pa[1] == pb[1]);
}

/// Texts that are equal as a whole and end in parts of one length are equal
/// part by part.
proof fn lemma_split_at_end(a: Seq<char>, b: Seq<char>, c: Seq<char>, d: Seq<char>)
    requires
        a + b == c + d,
        b.len() == d.len(),
    ensures
        a == c,
        b == d,
{
    let left = a + b;
    let right = c + d;
    assert(left.len() == right.len());
    assert(a.len() == c.len());
    assert forall|i: int| 0 <= i < a.len() implies a[i] == c[i] by {
        assert(left[i] == right[i]);
    }
    assert forall|i: int| 0 <= i < b.len() implies b[i] == d[i] by {
        assert(left[a.len() + i] == right[a.len() + i]);
    }
    assert(a =~= c);
    assert(b =~= d);
}

/// Rows of one length with all cells below a hundred and the same text are
/// the same.
proof fn lemma_row_text_injective(r: Seq<usize>, s: Seq<usize>)
    requires
        r.len() == s.len(),
        forall|i: int| 0 <= i < r.len() ==> r[i] < 100,
        forall|i: int| 0 <= i < s.len() ==> s[i] < 100,
        row_text(r) == row_text(s),
    ensures
        r == s,
    decreases r.len(),
{
    lemma_row_text_len(r);
    lemma_row_text_len(s);
    if r.len() > 0 {
        let a = r.last() as nat;
        let b = s.last() as nat;
        reveal_with_fuel(decimal, 2);
        assert(padded(a).len() == 2 && padded(b).len() == 2);
        lemma_split_at_end(row_text(r.drop_last()), padded(a), row_text(s.drop_last()), padded(b));
        lemma_padded_injective(a, b);
        lemma_row_text_injective(r.drop_last(), s.drop_last());
        assert(r =~= r.drop_last().push(r.last()));
        assert(s =~= s.drop_last().push(s.last()));
    } else {
        assert(r =~= s);
    }
}

/// The text of a row with all cells below a hundred has two characters for
/// each cell.
proof fn lemma_row_text_len(r: Seq<usize>)
    requires
        forall|i: int| 0 <= i < r.len() ==> r[i] < 100,
    ensures
        row_text(r).len() == 2 * r.len(),
    decreases r.len(),
{
    if r.len() > 0 {
        reveal_with_fuel(decimal, 2);
        lemma_row_text_len(r.drop_last());
        assert(padded(r.last() as nat).len() == 2);
    }
}

/// Two boards of one shape whose cells are all below a hundred have the
/// same text only where they are the same board.
pub proof fn lemma_grid_text_injective(a: Grid, b: Grid, w: nat, h: nat)
    requires
        is_grid(a, w, h),
        is_grid(b, w, h),
        cells_below(a, 100),
        cells_below(b, 100),
        grid_text(a) == grid_text(b),
    ensures
        a == b,
    decreases h,
{
    if h > 0 {
        let ra = a.last();
        let rb = b.last();
        assert forall|i: int| 0 <= i < ra.len() implies ra[i] < 100 by {
            assert(a[h - 1][i] < 100);
        }
        assert forall|i: int| 0 <= i < rb.len() implies rb[i] < 100 by {
            assert(b[h - 1][i] < 100);
        }
        lemma_row_text_len(ra);
        lemma_row_text_len(rb);
        lemma_split_at_end(
            grid_text(a.drop_last()),
            row_text(ra),
            grid_text(b.drop_last()),
            row_text(rb),
        );
        lemma_row_text_injective(ra, rb);
        assert(cells_below(a.drop_last(), 100)) by {
            assert forall|y: int, x: int|
                0 <= y < a.drop_last().len() && 0 <= x < a.drop_last()[y].len() implies (
            #[trigger] a.drop_last()[y][x]) < 100 by {
                assert(a[y][x] < 100);
            }
        }
        assert(cells_below(b.drop_last(), 100)) by {
            assert forall|y: int, x: int|
                0 <= y < b.drop_last().len() && 0 <= x < b.drop_last()[y].len() implies (
            #[trigger] b.drop_last()[y][x]) < 100 by {
                assert(b[y][x] < 100);
            }
        }
        lemma_grid_text_injective(a.drop_last(), b.drop_last(), w, (h - 1) as nat);
        assert(a =~= a.drop_last().push(ra));
        assert(b =~= b.drop_last().push(rb));
    } else {
        assert(a =~= b);
    }
}

/// Two square boards of one side whose cells are all below a hundred have
/// the same canonical key only where they are symmetric images of each
/// other.
pub proof fn lemma_same_key_means_symmetric(a: Grid, b: Grid, n: nat)
    requires
        is_grid(a, n, n),
        is_grid(b, n, n),
        cells_below(a, 100),
        cells_below(b, 100),
        canonical_key(a) == canonical_key(b),
    ensures
        same_up_to_symmetry(a, b),
{
    lemma_canonical_key_is_least(a);
    lemma_canonical_key_is_least(b);
    let ta = reading_texts(a);
    let tb = reading_texts(b);
    let i = choose|i: int| 0 <= i < ta.len() && ta[i] == canonical_key(a);
    let j = choose|j: int| 0 <= j < tb.len() && tb[j] == canonical_key(b);
    let sa = reading_symmetry(i / 3, i % 3);
    let sb = reading_symmetry(j / 3, j % 3);
    lemma_reading_is_image(a, n, i / 3, i % 3);
    lemma_reading_is_image(b, n, j / 3, j % 3);
    lemma_image_is_grid(a, n, sa);
    lemma_image_is_grid(b, n, sb);
    lemma_grid_text_injective(image(a, sa), image(b, sb), n, n);
    lemma_inverse_undoes(b, n, sb);
    lemma_image_of_image(a, n, sa, inverse(sb));
    lemma_image_is_transformed(a, n, composed(sa, inverse(sb)));
}

/// One of `kept` is a board of which `g` is a symmetric image.
pub open spec fn represented(kept: Seq<Grid>, g: Grid) -> bool {
    exists|j: int| 0 <= j < kept.len() && same_up_to_symmetry(#[trigger] kept[j], g)
}

/// What deduplication keeps of square boards of one side with all cells
/// below a hundred: one board of each class of symmetric images. Every
/// given board is a symmetric image of a kept one, and no kept board is a
/// symmetric image of another kept one.
pub proof fn lemma_one_of_each_class(gs: Seq<Grid>, n: nat)
    requires
        forall|i: int| 0 <= i < gs.len() ==> is_grid(#[trigger] gs[i], n, n),
        forall|i: int| 0 <= i < gs.len() ==> cells_below(#[trigger] gs[i], 100),
    ensures
        forall|i: int| 0 <= i < gs.len() ==> represented(distinct_firsts(gs), #[trigger] gs[i]),
        forall|a: int, b: int|
            0 <= a < b < distinct_firsts(gs).len() ==> !same_up_to_symmetry(
                #[trigger] distinct_firsts(gs)[a],
                #[trigger] distinct_firsts(gs)[b],
            ),
{
    let kept = distinct_firsts(gs);
    lemma_distinct_firsts(gs);
    assert forall|j: int| 0 <= j < kept.len() implies is_grid(#[trigger] kept[j], n, n)
        && cells_below(kept[j], 100) by {
        assert(gs.contains(kept[j]));
        let i = choose|i: int| 0 <= i < gs.len() && gs[i] == kept[j];
        assert(is_grid(gs[i], n, n));
    }
    assert forall|i: int| 0 <= i < gs.len() implies represented(kept, #[trigger] gs[i]) by {
        let keys = crate::filtering::keys_of(kept);
        assert(keys.contains(canonical_key(gs[i])));
        let j = choose|j: int| 0 <= j < keys.len() && keys[j] == canonical_key(gs[i]);
        assert(canonical_key(kept[j]) == canonical_key(gs[i]));
        lemma_same_key_means_symmetric(kept[j], gs[i], n);
    }
    assert forall|a: int, b: int| 0 <= a < b < kept.len() implies !same_up_to_symmetry(
        #[trigger] kept[a],
        #[trigger] kept[b],
    ) by {
        if same_up_to_symmetry(kept[a], kept[b]) {
            lemma_symmetric_boards_share_key(kept[a], kept[b], n);
        }
    }
}

} // verus!
