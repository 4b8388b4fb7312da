use crate::grid::{grid_of, grids_of, is_grid, Grid, World};
use vstd::hash_set::StringHashSet;
use crate::text::{
    is_least, least_text, lemma_least_of_same_texts, lemma_least_unique,
    lemma_text_order_asymmetric, lemma_text_order_transitive, padded, push_padded, text_before,
};
use vstd::prelude::*;

verus! {

/// A turn of the board by a multiple of ninety degrees.
#[derive(Debug, Clone, Copy, PartialEq, Eq, Structural)]
pub enum Rotation {
    Zero,
    Ninety,
    OneEighty,
    TwoSeventy,
}

impl Rotation {
    /// The number of quarter turns.
    pub open spec fn quarter_turns(self) -> int {
        match self {
            Rotation::Zero => 0,
            Rotation::Ninety => 1,
            Rotation::OneEighty => 2,
            Rotation::TwoSeventy => 3,
        }
    }
}

/// Where the cell `(x, y)` of a board of side `n` is read from after
/// `turns` quarter turns.
pub open spec fn turned(n: int, turns: int, x: int, y: int) -> (int, int) {
    if turns == 0 {
        (x, y)
    } else if turns == 1 {
        (y, n - 1 - x)
    } else if turns == 2 {
        (n - 1 - x, n - 1 - y)
    } else {
        (n - 1 - y, x)
    }
}

/// The cell `(x, y)` of a re-reading of the square board `g`: after `turns`
/// quarter turns, read straight (`kind` 0), mirrored top to bottom (1) or
/// across the diagonal (2).
pub open spec fn reading_cell(g: Grid, turns: int, kind: int, x: int, y: int) -> usize {
    let n = g.len() as int;
    let t = turned(n, turns, x, y);
    if kind == 0 {
        g[t.1][t.0]
    } else if kind == 1 {
        g[n - 1 - t.1][t.0]
    } else {
        g[t.0][t.1]
    }
}

/// A re-reading of the square board `g`, as a board.
pub open spec fn reading(g: Grid, turns: int, kind: int) -> Grid {
    Seq::new(g.len(), |y: int| Seq::new(g.len(), |x: int| reading_cell(g, turns, kind, x, y)))
}

/// The cells of a row as text: each in decimal, two digits wide at least.
pub open spec fn row_text(row: Seq<usize>) -> Seq<char>
    decreases row.len(),
{
    if row.len() == 0 {
        Seq::empty()
    } else {
        row_text(row.drop_last()) + padded(row.last() as nat)
    }
}

/// The cells of a board as text, row by row.
pub open spec fn grid_text(g: Grid) -> Seq<char>
    decreases g.len(),
{
    if g.len() == 0 {
        Seq::empty()
    } else {
        grid_text(g.drop_last()) + row_text(g.last())
    }
}

/// The texts of the twelve re-readings of `g`: for each number of quarter
/// turns the straight, the mirrored and the diagonal one.
pub open spec fn reading_texts(g: Grid) -> Seq<Seq<char>> {
    Seq::new(12, |k: int| grid_text(reading(g, k / 3, k % 3)))
}

/// The canonical key of a square board: the least of the texts of its
/// re-readings.
pub open spec fn canonical_key(g: Grid) -> Seq<char> {
    choose|m: Seq<char>| is_least(reading_texts(g), m)
}

/// One more cell adds its text to that of the row.
proof fn lemma_row_text_step(row: Seq<usize>, x: int)
    requires
        0 <= x < row.len(),
    ensures
        row_text(row.take(x + 1)) == row_text(row.take(x)) + padded(row[x] as nat),
{
    assert(row.take(x + 1).drop_last() =~= row.take(x));
}

/// One more row adds its text to that of the board.
proof fn lemma_grid_text_step(g: Grid, y: int)
    requires
        0 <= y < g.len(),
    ensures
        grid_text(g.take(y + 1)) == grid_text(g.take(y)) + row_text(g[y]),
{
    assert(g.take(y + 1).drop_last() =~= g.take(y));
}

/// Where `(x, y)` lies after a quarter turn to the right of a square of
/// side `matrix_size`.
pub fn rotate_coordinates_right(x: usize, y: usize, matrix_size: usize) -> (rotated: (usize, usize))
    requires
        x < matrix_size,
    ensures
        rotated.0 == y,
        rotated.1 == matrix_size - 1 - x,
{
    let rotated_x = y;
    let rotated_y = matrix_size - 1 - x;
    (rotated_x, rotated_y)
}

/// Where `(x, y)` lies after a quarter turn to the left of a square of side
/// `matrix_size`.
pub fn rotate_coordinates_left(x: usize, y: usize, matrix_size: usize) -> (rotated: (usize, usize))
    requires
        y < matrix_size,
    ensures
        rotated.0 == matrix_size - 1 - y,
        rotated.1 == x,
{
    let rotated_y = x;
    let rotated_x = matrix_size - 1 - y;
    (rotated_x, rotated_y)
}

/// A quarter turn to the left undoes one to the right, and the other way
/// round.
pub proof fn lemma_turns_undo_each_other(x: int, y: int, n: int)
    ensures
        turned(n, 3, turned(n, 1, x, y).0, turned(n, 1, x, y).1) == (x, y),
        turned(n, 1, turned(n, 3, x, y).0, turned(n, 3, x, y).1) == (x, y),
        turned(n, 2, turned(n, 2, x, y).0, turned(n, 2, x, y).1) == (x, y),
{
}

/// Where the cell `(x, y)` is read from after `rotation`.
fn turn(rotation: Rotation, x: usize, y: usize, size: usize) -> (t: (usize, usize))
    requires
        x < size,
        y < size,
    ensures
        (t.0 as int, t.1 as int) == turned(size as int, rotation.quarter_turns(), x as int, y as int),
        t.0 < size,
        t.1 < size,
{
    match rotation {
        Rotation::Zero => (x, y),
        Rotation::Ninety => rotate_coordinates_right(x, y, size),
        Rotation::OneEighty => (size - 1 - x, size - 1 - y),
        Rotation::TwoSeventy => rotate_coordinates_left(x, y, size),
    }
}

/// The canonical key of a square board: the same for all boards that are
/// turns or mirror images of each other.
pub fn world_id<const N: usize>(world: &World<N, N>) -> (id: String)
    ensures
        id@ == canonical_key(grid_of(*world)),
        is_least(reading_texts(grid_of(*world)), id@),
{
    let ghost g = grid_of(*world);
    let rotations = [Rotation::Zero, Rotation::Ninety, Rotation::OneEighty, Rotation::TwoSeventy];
    let mut ids: Vec<String> = Vec::new();
    let mut r: usize = 0;
    while r < 4
        invariant
            r <= 4,
            g == grid_of(*world),
            is_grid(g, N as nat, N as nat),
            forall|i: int| 0 <= i < 4 ==> (#[trigger] rotations[i]).quarter_turns() == i,
            ids@.len() == 3 * r,
            forall|k: int| 0 <= k < 3 * r ==> (#[trigger] ids@[k])@ == reading_texts(g)[k],
        decreases 4 - r,
    {
        let rotation = rotations[r];
        let ghost straight = reading(g, r as int, 0);
        let ghost mirrored = reading(g, r as int, 1);
        let ghost diagonal = reading(g, r as int, 2);
        let mut rotation_id = String::new();
        let mut mirror_id = String::new();
        let mut diagonal_id = String::new();
        let mut y: usize = 0;
        while y < N
            invariant
                y <= N,
                r < 4,
                rotation.quarter_turns() == r,
                g == grid_of(*world),
                is_grid(g, N as nat, N as nat),
                straight == reading(g, r as int, 0),
                mirrored == reading(g, r as int, 1),
                diagonal == reading(g, r as int, 2),
                rotation_id@ == grid_text(straight.take(y as int)),
                mirror_id@ == grid_text(mirrored.take(y as int)),
                diagonal_id@ == grid_text(diagonal.take(y as int)),
            decreases N - y,
        {
            let ghost rows_straight = rotation_id@;
            let ghost rows_mirrored = mirror_id@;
            let ghost rows_diagonal = diagonal_id@;
            let mut x: usize = 0;
            proof {
                assert(straight[y as int].take(0) =~= Seq::<usize>::empty());
                assert(mirrored[y as int].take(0) =~= Seq::<usize>::empty());
                assert(diagonal[y as int].take(0) =~= Seq::<usize>::empty());
                assert(rotation_id@ =~= rows_straight + row_text(straight[y as int].take(0)));
                assert(mirror_id@ =~= rows_mirrored + row_text(mirrored[y as int].take(0)));
                assert(diagonal_id@ =~= rows_diagonal + row_text(diagonal[y as int].take(0)));
            }
            while x < N
                invariant
                    x <= N,
                    y < N,
                    r < 4,
                    rotation.quarter_turns() == r,
                    g == grid_of(*world),
                    is_grid(g, N as nat, N as nat),
                    straight == reading(g, r as int, 0),
                    mirrored == reading(g, r as int, 1),
                    diagonal == reading(g, r as int, 2),
                    rotation_id@ == rows_straight + row_text(straight[y as int].take(x as int)),
                    mirror_id@ == rows_mirrored + row_text(mirrored[y as int].take(x as int)),
                    diagonal_id@ == rows_diagonal + row_text(diagonal[y as int].take(x as int)),
                decreases N - x,
            {
                let (transformed_x, transformed_y) = turn(rotation, x, y, N);
                let ghost before_straight = rotation_id@;
                let ghost before_mirrored = mirror_id@;
                let ghost before_diagonal = diagonal_id@;
                push_padded(&mut rotation_id, world[transformed_y][transformed_x]);
                push_padded(&mut mirror_id, world[N - 1 - transformed_y][transformed_x]);
                push_padded(&mut diagonal_id, world[transformed_x][transformed_y]);
                proof {
                    lemma_row_text_step(straight[y as int], x as int);
                    lemma_row_text_step(mirrored[y as int], x as int);
                    lemma_row_text_step(diagonal[y as int], x as int);
                    let tx = transformed_x as int;
                    let ty = transformed_y as int;
                    assert(straight[y as int][x as int] == world[ty][tx]);
                    assert(mirrored[y as int][x as int] == world[N - 1 - ty][tx]);
                    assert(diagonal[y as int][x as int] == world[tx][ty]);
                    assert(rotation_id@ =~= rows_straight + row_text(
                        straight[y as int].take(x + 1),
                    ));
                    assert(mirror_id@ =~= rows_mirrored + row_text(mirrored[y as int].take(x + 1)));
                    assert(diagonal_id@ =~= rows_diagonal + row_text(
                        diagonal[y as int].take(x + 1),
                    ));
                }
                x += 1;
            }
            proof {
                assert(straight[y as int].take(N as int) =~= straight[y as int]);
                assert(mirrored[y as int].take(N as int) =~= mirrored[y as int]);
                assert(diagonal[y as int].take(N as int) =~= diagonal[y as int]);
                lemma_grid_text_step(straight, y as int);
                lemma_grid_text_step(mirrored, y as int);
                lemma_grid_text_step(diagonal, y as int);
            }
            y += 1;
        }
        proof {
            assert(straight.take(N as int) =~= straight);
            assert(mirrored.take(N as int) =~= mirrored);
            assert(diagonal.take(N as int) =~= diagonal);
        }
        ids.push(rotation_id);
        ids.push(mirror_id);
        ids.push(diagonal_id);
        r += 1;
    }
    let id = least_text(&ids);
    proof {
        let views = Seq::new(ids@.len(), |i: int| ids@[i]@);
        assert(views =~= reading_texts(g));
        let chosen = canonical_key(g);
        lemma_least_unique(reading_texts(g), id@, chosen);
    }
    id
}

/// The square board `g` after a quarter turn.
pub open spec fn rotated(g: Grid) -> Grid {
    Seq::new(g.len(), |y: int| Seq::new(g.len(), |x: int| g[g.len() - 1 - x][y]))
}

/// The square board `g` mirrored left to right.
pub open spec fn mirrored(g: Grid) -> Grid {
    Seq::new(g.len(), |y: int| Seq::new(g.len(), |x: int| g[y][g.len() - 1 - x]))
}

/// The square board `g` after `turns` quarter turns, then mirrored where
/// `mirror` says so: one of its eight symmetric images.
pub open spec fn transformed(g: Grid, turns: nat, mirror: bool) -> Grid
    decreases turns,
{
    if turns == 0 {
        if mirror {
            mirrored(g)
        } else {
            g
        }
    } else {
        transformed(rotated(g), (turns - 1) as nat, mirror)
    }
}

/// The first `k` of `texts` have a least text.
proof fn lemma_least_exists(texts: Seq<Seq<char>>, k: int) -> (m: Seq<char>)
    requires
        0 < k <= texts.len(),
    ensures
        is_least(texts.take(k), m),
    decreases k,
{
    let upto = texts.take(k);
    if k == 1 {
        assert(upto[0] == texts[0]);
        lemma_text_order_asymmetric(texts[0], texts[0]);
        texts[0]
    } else {
        let m = lemma_least_exists(texts, k - 1);
        let earlier = texts.take(k - 1);
        let t = texts[k - 1];
        let i = choose|i: int| 0 <= i < earlier.len() && earlier[i] == m;
        if text_before(t, m) {
            assert(upto[k - 1] == t);
            assert forall|j: int| 0 <= j < upto.len() implies !text_before(#[trigger] upto[j], t) by {
                if j < k - 1 {
                    assert(upto[j] == earlier[j]);
                    if text_before(upto[j], t) {
                        lemma_text_order_transitive(upto[j], t, m);
                    }
                } else {
                    lemma_text_order_asymmetric(t, t);
                }
            }
            t
        } else {
            assert(upto[i] == m);
            assert forall|j: int| 0 <= j < upto.len() implies !text_before(#[trigger] upto[j], m) by {
                if j < k - 1 {
                    assert(upto[j] == earlier[j]);
                }
            }
            m
        }
    }
}

/// The canonical key of a board is the least of the texts of its
/// re-readings.
pub proof fn lemma_canonical_key_is_least(g: Grid)
    ensures
        is_least(reading_texts(g), canonical_key(g)),
{
    let texts = reading_texts(g);
    let m = lemma_least_exists(texts, 12);
    assert(texts.take(12) =~= texts);
}

/// A quarter turn leaves the canonical key as it is.
pub proof fn lemma_key_of_rotated(g: Grid, n: nat)
    requires
        is_grid(g, n, n),
    ensures
        is_grid(rotated(g), n, n),
        canonical_key(rotated(g)) == canonical_key(g),
{
    let t = rotated(g);
    let ours = reading_texts(g);
    let theirs = reading_texts(t);
    assert(reading(t, 0, 0) =~~= reading(g, 1, 0));
    assert(theirs[0] == ours[3]);
    assert(reading(t, 0, 1) =~~= reading(g, 2, 2));
    assert(theirs[1] == ours[8]);
    assert(reading(t, 0, 2) =~~= reading(g, 0, 1));
    assert(theirs[2] == ours[1]);
    assert(reading(t, 1, 0) =~~= reading(g, 2, 0));
    assert(theirs[3] == ours[6]);
    assert(reading(t, 1, 1) =~~= reading(g, 0, 1));
    assert(theirs[4] == ours[1]);
    assert(reading(t, 1, 2) =~~= reading(g, 0, 2));
    assert(theirs[5] == ours[2]);
    assert(reading(t, 2, 0) =~~= reading(g, 3, 0));
    assert(theirs[6] == ours[9]);
    assert(reading(t, 2, 1) =~~= reading(g, 0, 2));
    assert(theirs[7] == ours[2]);
    assert(reading(t, 2, 2) =~~= reading(g, 1, 2));
    assert(theirs[8] == ours[5]);
    assert(reading(t, 3, 0) =~~= reading(g, 0, 0));
    assert(theirs[9] == ours[0]);
    assert(reading(t, 3, 1) =~~= reading(g, 1, 2));
    assert(theirs[10] == ours[5]);
    assert(reading(t, 3, 2) =~~= reading(g, 2, 2));
    assert(theirs[11] == ours[8]);
    assert(reading(g, 0, 0) =~~= reading(t, 3, 0));
    assert(ours[0] == theirs[9]);
    assert(reading(g, 0, 1) =~~= reading(t, 0, 2));
    assert(ours[1] == theirs[2]);
    assert(reading(g, 0, 2) =~~= reading(t, 1, 2));
    assert(ours[2] == theirs[5]);
    assert(reading(g, 1, 0) =~~= reading(t, 0, 0));
    assert(ours[3] == theirs[0]);
    assert(reading(g, 1, 1) =~~= reading(t, 1, 2));
    assert(ours[4] == theirs[5]);
    assert(reading(g, 1, 2) =~~= reading(t, 2, 2));
    assert(ours[5] == theirs[8]);
    assert(reading(g, 2, 0) =~~= reading(t, 1, 0));
    assert(ours[6] == theirs[3]);
    assert(reading(g, 2, 1) =~~= reading(t, 2, 2));
    assert(ours[7] == theirs[8]);
    assert(reading(g, 2, 2) =~~= reading(t, 0, 1));
    assert(ours[8] == theirs[1]);
    assert(reading(g, 3, 0) =~~= reading(t, 2, 0));
    assert(ours[9] == theirs[6]);
    assert(reading(g, 3, 1) =~~= reading(t, 0, 1));
    assert(ours[10] == theirs[1]);
    assert(reading(g, 3, 2) =~~= reading(t, 0, 2));
    assert(ours[11] == theirs[2]);
    lemma_canonical_key_is_least(g);
    lemma_canonical_key_is_least(t);
    lemma_least_of_same_texts(theirs, ours, canonical_key(t), canonical_key(g));
}

/// Mirroring leaves the canonical key as it is.
pub proof fn lemma_key_of_mirrored(g: Grid, n: nat)
    requires
        is_grid(g, n, n),
    ensures
        is_grid(mirrored(g), n, n),
        canonical_key(mirrored(g)) == canonical_key(g),
{
    let t = mirrored(g);
    let ours = reading_texts(g);
    let theirs = reading_texts(t);
    assert(reading(t, 0, 0) =~~= reading(g, 1, 2));
    assert(theirs[0] == ours[5]);
    assert(reading(t, 0, 1) =~~= reading(g, 2, 0));
    assert(theirs[1] == ours[6]);
    assert(reading(t, 0, 2) =~~= reading(g, 3, 0));
    assert(theirs[2] == ours[9]);
    assert(reading(t, 1, 0) =~~= reading(g, 2, 2));
    assert(theirs[3] == ours[8]);
    assert(reading(t, 1, 1) =~~= reading(g, 3, 0));
    assert(theirs[4] == ours[9]);
    assert(reading(t, 1, 2) =~~= reading(g, 0, 0));
    assert(theirs[5] == ours[0]);
    assert(reading(t, 2, 0) =~~= reading(g, 0, 1));
    assert(theirs[6] == ours[1]);
    assert(reading(t, 2, 1) =~~= reading(g, 0, 0));
    assert(theirs[7] == ours[0]);
    assert(reading(t, 2, 2) =~~= reading(g, 1, 0));
    assert(theirs[8] == ours[3]);
    assert(reading(t, 3, 0) =~~= reading(g, 0, 2));
    assert(theirs[9] == ours[2]);
    assert(reading(t, 3, 1) =~~= reading(g, 1, 0));
    assert(theirs[10] == ours[3]);
    assert(reading(t, 3, 2) =~~= reading(g, 2, 0));
    assert(theirs[11] == ours[6]);
    assert(reading(g, 0, 0) =~~= reading(t, 1, 2));
    assert(ours[0] == theirs[5]);
    assert(reading(g, 0, 1) =~~= reading(t, 2, 0));
    assert(ours[1] == theirs[6]);
    assert(reading(g, 0, 2) =~~= reading(t, 3, 0));
    assert(ours[2] == theirs[9]);
    assert(reading(g, 1, 0) =~~= reading(t, 2, 2));
    assert(ours[3] == theirs[8]);
    assert(reading(g, 1, 1) =~~= reading(t, 3, 0));
    assert(ours[4] == theirs[9]);
    assert(reading(g, 1, 2) =~~= reading(t, 0, 0));
    assert(ours[5] == theirs[0]);
    assert(reading(g, 2, 0) =~~= reading(t, 0, 1));
    assert(ours[6] == theirs[1]);
    assert(reading(g, 2, 1) =~~= reading(t, 0, 0));
    assert(ours[7] == theirs[0]);
    assert(reading(g, 2, 2) =~~= reading(t, 1, 0));
    assert(ours[8] == theirs[3]);
    assert(reading(g, 3, 0) =~~= reading(t, 0, 2));
    assert(ours[9] == theirs[2]);
    assert(reading(g, 3, 1) =~~= reading(t, 1, 0));
    assert(ours[10] == theirs[3]);
    assert(reading(g, 3, 2) =~~= reading(t, 2, 0));
    assert(ours[11] == theirs[6]);
    lemma_canonical_key_is_least(g);
    lemma_canonical_key_is_least(t);
    lemma_least_of_same_texts(theirs, ours, canonical_key(t), canonical_key(g));
}

/// The canonical key is the same for a square board and each of its
/// symmetric images: any number of quarter turns, mirrored or not.
pub proof fn lemma_key_of_transformed(g: Grid, n: nat, turns: nat, mirror: bool)
    requires
        is_grid(g, n, n),
    ensures
        is_grid(transformed(g, turns, mirror), n, n),
        canonical_key(transformed(g, turns, mirror)) == canonical_key(g),
    decreases turns,
{
    if turns == 0 {
        if mirror {
            lemma_key_of_mirrored(g, n);
        }
    } else {
        lemma_key_of_rotated(g, n);
        lemma_key_of_transformed(rotated(g), n, (turns - 1) as nat, mirror);
    }
}

/// An earlier board of `gs` has the canonical key of the board at `i`.
pub open spec fn key_seen_before(gs: Seq<Grid>, i: int) -> bool {
    exists|j: int| 0 <= j < i && canonical_key(#[trigger] gs[j]) == canonical_key(gs[i])
}

/// `gs` without each board whose canonical key an earlier one has: of the
/// boards with one key the first stays, and the order is kept.
pub open spec fn distinct_firsts(gs: Seq<Grid>) -> Seq<Grid>
    decreases gs.len(),
{
    if gs.len() == 0 {
        Seq::empty()
    } else {
        let earlier = distinct_firsts(gs.drop_last());
        if key_seen_before(gs, gs.len() - 1) {
            earlier
        } else {
            earlier.push(gs.last())
        }
    }
}

/// The canonical keys of a list of boards.
pub open spec fn keys_of(gs: Seq<Grid>) -> Seq<Seq<char>> {
    Seq::new(gs.len(), |i: int| canonical_key(gs[i]))
}

/// Keeps of the solutions with one canonical key the first, in the order
/// in which they came.
pub fn filter_out_duplicates<const N: usize>(solutions: &[World<N, N>]) -> (filtered_solutions: Vec<
    World<N, N>,
>)
    ensures
        grids_of(filtered_solutions@) == distinct_firsts(grids_of(solutions@)),
{
    let ghost gs = grids_of(solutions@);
    let mut solution_ids = StringHashSet::new();
    let mut filtered_solutions: Vec<World<N, N>> = Vec::new();
    let mut i: usize = 0;
    proof {
        assert(gs.take(0) =~= Seq::<Grid>::empty());
        assert(grids_of(filtered_solutions@) =~= distinct_firsts(gs.take(0)));
    }
    while i < solutions.len()
        invariant
            i <= solutions@.len(),
            gs == grids_of(solutions@),
            grids_of(filtered_solutions@) == distinct_firsts(gs.take(i as int)),
            forall|key: Seq<char>|
                solution_ids@.contains(key) <==> exists|j: int|
                    0 <= j < i && canonical_key(#[trigger] gs[j]) == key,
        decreases solutions@.len() - i,
    {
        let solution = &solutions[i];
        let solution_id = world_id(solution);
        let ghost upto = gs.take(i as int);
        let ghost next = gs.take(i + 1);
        let ghost kept = grids_of(filtered_solutions@);
        proof {
            assert(next.drop_last() =~= upto);
            assert(next.last() == gs[i as int]);
            assert(solution_id@ == canonical_key(gs[i as int]));
            if key_seen_before(next, i as int) {
                let j = choose|j: int|
                    0 <= j < i && canonical_key(#[trigger] next[j]) == canonical_key(next[i as int]);
                assert(canonical_key(gs[j]) == solution_id@);
            }
            if solution_ids@.contains(solution_id@) {
                let j = choose|j: int| 0 <= j < i && canonical_key(#[trigger] gs[j]) == solution_id@;
                assert(canonical_key(next[j]) == canonical_key(next[i as int]));
            }
        }
        if !solution_ids.contains(solution_id.as_str()) {
            solution_ids.insert(solution_id);
            filtered_solutions.push(*solution);
            proof {
                assert(grids_of(filtered_solutions@) =~= kept.push(gs[i as int]));
            }
        }
        proof {
            assert forall|key: Seq<char>|
                solution_ids@.contains(key) <==> exists|j: int|
                    0 <= j < i + 1 && canonical_key(#[trigger] gs[j]) == key by {
                if exists|j: int| 0 <= j < i + 1 && canonical_key(#[trigger] gs[j]) == key {
                    let j = choose|j: int| 0 <= j < i + 1 && canonical_key(#[trigger] gs[j]) == key;
                    if j < i {
                        assert(canonical_key(gs[j]) == key);
                    }
                }
                if solution_ids@.contains(key) && key != canonical_key(gs[i as int]) {
                    let j = choose|j: int| 0 <= j < i && canonical_key(#[trigger] gs[j]) == key;
                    assert(0 <= j < i + 1 && canonical_key(gs[j]) == key);
                }
                if key == canonical_key(gs[i as int]) {
                    assert(0 <= i < i + 1 && canonical_key(gs[i as int]) == key);
                }
            }
        }
        i += 1;
    }
    proof {
        assert(gs.take(solutions@.len() as int) =~= gs);
    }
    filtered_solutions
}

/// What deduplication keeps: each kept board is one of the given ones, no
/// two kept boards share a canonical key, and every given board has the key
/// of a kept one.
pub proof fn lemma_distinct_firsts(gs: Seq<Grid>)
    ensures
        forall|j: int|
            0 <= j < distinct_firsts(gs).len() ==> gs.contains(#[trigger] distinct_firsts(gs)[j]),
        forall|a: int, b: int|
            0 <= a < b < distinct_firsts(gs).len() ==> canonical_key(
                #[trigger] distinct_firsts(gs)[a],
            ) != canonical_key(#[trigger] distinct_firsts(gs)[b]),
        forall|i: int|
            0 <= i < gs.len() ==> keys_of(distinct_firsts(gs)).contains(
                canonical_key(#[trigger] gs[i]),
            ),
    decreases gs.len(),
{
    let kept = distinct_firsts(gs);
    if gs.len() > 0 {
        let front = gs.drop_last();
        let earlier = distinct_firsts(front);
        let last = gs.last();
        let n = gs.len() - 1;
        lemma_distinct_firsts(front);
        assert forall|j: int| 0 <= j < kept.len() implies gs.contains(#[trigger] kept[j]) by {
            if j < earlier.len() {
                assert(kept[j] == earlier[j]);
                assert(front.contains(earlier[j]));
                let i = choose|i: int| 0 <= i < front.len() && front[i] == earlier[j];
                assert(gs[i] == kept[j]);
            } else {
                assert(gs[n] == kept[j]);
            }
        }
        assert forall|a: int, b: int| 0 <= a < b < kept.len() implies canonical_key(
            #[trigger] kept[a],
        ) != canonical_key(#[trigger] kept[b]) by {
            if b < earlier.len() {
                assert(kept[a] == earlier[a] && kept[b] == earlier[b]);
            } else {
                assert(kept[b] == last);
                assert(kept[a] == earlier[a]);
                assert(front.contains(earlier[a]));
                let i = choose|i: int| 0 <= i < front.len() && front[i] == earlier[a];
                assert(gs[i] == earlier[a]);
                if canonical_key(kept[a]) == canonical_key(last) {
                    assert(key_seen_before(gs, n));
                }
            }
        }
        assert forall|i: int| 0 <= i < gs.len() implies keys_of(kept).contains(
            canonical_key(#[trigger] gs[i]),
        ) by {
            let wanted = canonical_key(gs[i]);
            if i < n {
                assert(front[i] == gs[i]);
                assert(keys_of(earlier).contains(wanted));
                let a = choose|a: int| 0 <= a < keys_of(earlier).len() && keys_of(earlier)[a] == wanted;
                assert(kept[a] == earlier[a]);
                assert(keys_of(kept)[a] == wanted);
            } else if key_seen_before(gs, n) {
                let j = choose|j: int|
                    0 <= j < n && canonical_key(#[trigger] gs[j]) == canonical_key(gs[n]);
                assert(front[j] == gs[j]);
                assert(keys_of(earlier).contains(canonical_key(front[j])));
                let a = choose|a: int| 0 <= a < keys_of(earlier).len() && keys_of(earlier)[a] == wanted;
                assert(keys_of(kept)[a] == wanted);
            } else {
                assert(keys_of(kept)[kept.len() - 1] == wanted);
            }
        }
    }
}

/// Deduplication keeps as many boards as the given boards have distinct
/// canonical keys.
pub proof fn lemma_distinct_firsts_count(gs: Seq<Grid>)
    ensures
        distinct_firsts(gs).len() == keys_of(gs).to_set().len(),
{
    let kept = distinct_firsts(gs);
    let kept_keys = keys_of(kept);
    lemma_distinct_firsts(gs);
    assert(kept_keys.no_duplicates()) by {
        assert forall|a: int, b: int|
            0 <= a < kept_keys.len() && 0 <= b < kept_keys.len() && a != b implies kept_keys[a]
            != kept_keys[b] by {
            if a < b {
                assert(canonical_key(kept[a]) != canonical_key(kept[b]));
            } else {
                assert(canonical_key(kept[b]) != canonical_key(kept[a]));
            }
        }
    }
    kept_keys.unique_seq_to_set();
    assert(kept_keys.to_set() =~= keys_of(gs).to_set()) by {
        assert forall|key: Seq<char>| kept_keys.to_set().contains(key) implies keys_of(
            gs,
        ).to_set().contains(key) by {
            let a = choose|a: int| 0 <= a < kept_keys.len() && kept_keys[a] == key;
            assert(gs.contains(kept[a]));
            let i = choose|i: int| 0 <= i < gs.len() && gs[i] == kept[a];
            assert(keys_of(gs)[i] == key);
        }
        assert forall|key: Seq<char>|
            keys_of(gs).to_set().contains(key) implies kept_keys.to_set().contains(key) by {
            let i = choose|i: int| 0 <= i < gs.len() && keys_of(gs)[i] == key;
            assert(kept_keys.contains(canonical_key(gs[i])));
        }
    }
}

} // verus!
