use crate::block::Offset;
use vstd::prelude::*;
use vstd::set_lib::*;

verus! {

/// A cell of the board, as `(x, y)`: column, then row.
pub type Position = (usize, usize);

/// The board: `H` rows of `W` cells. A cell holds 0 while it is free, else
/// the id of the piece that occupies it.
pub type World<const W: usize, const H: usize> = [[usize; W]; H];

/// The mathematical model of a board: its rows, top to bottom.
pub type Grid = Seq<Seq<usize>>;

/// The grid that a board stands for.
pub open spec fn grid_of<const W: usize, const H: usize>(world: World<W, H>) -> Grid {
    Seq::new(H as nat, |y: int| world[y]@)
}

/// The grids of a list of boards.
pub open spec fn grids_of<const W: usize, const H: usize>(worlds: Seq<World<W, H>>) -> Seq<Grid> {
    Seq::new(worlds.len(), |i: int| grid_of(worlds[i]))
}

/// `g` has `h` rows of `w` cells each.
pub open spec fn is_grid(g: Grid, w: nat, h: nat) -> bool {
    &&& g.len() == h
    &&& forall|y: int| 0 <= y < h ==> (#[trigger] g[y]).len() == w
}

/// The board of `h` rows of `w` cells with every cell free.
pub open spec fn empty_grid(w: nat, h: nat) -> Grid {
    Seq::new(h, |y: int| Seq::new(w, |x: int| 0usize))
}

/// `p` is a cell of the board.
pub open spec fn in_grid(g: Grid, p: (int, int)) -> bool {
    0 <= p.1 < g.len() && 0 <= p.0 < g[p.1].len()
}

/// `p` is a cell of the board, and free.
pub open spec fn is_free(g: Grid, p: (int, int)) -> bool {
    in_grid(g, p) && g[p.1][p.0] == 0
}

/// The positions of the free cells.
pub open spec fn free_cells(g: Grid) -> Set<(int, int)> {
    Set::new(|p: (int, int)| is_free(g, p))
}

/// The number of free cells.
pub open spec fn free_count(g: Grid) -> nat {
    free_cells(g).len()
}

/// No cell is free.
pub open spec fn full(g: Grid) -> bool {
    forall|p: (int, int)| in_grid(g, p) ==> g[p.1][p.0] != 0
}

/// Some cell holds `id`.
pub open spec fn occurs(g: Grid, id: usize) -> bool {
    exists|p: (int, int)| in_grid(g, p) && #[trigger] g[p.1][p.0] == id
}

/// `p` comes before `q` in row-major order.
pub open spec fn scans_before(p: (int, int), q: (int, int)) -> bool {
    p.1 < q.1 || (p.1 == q.1 && p.0 < q.0)
}

/// `c` is the cursor of `g`: its first free cell in row-major order.
pub open spec fn is_cursor(g: Grid, c: (int, int)) -> bool {
    &&& is_free(g, c)
    &&& forall|p: (int, int)| is_free(g, p) ==> !scans_before(p, c)
}

/// The cells that a shape covers when its anchor lies at `anchor`: the anchor
/// first, then each offset in turn.
pub open spec fn footprint(anchor: (int, int), shape: Seq<Offset>) -> Seq<(int, int)> {
    Seq::new(
        shape.len() + 1,
        |i: int|
            if i == 0 {
                anchor
            } else {
                (anchor.0 + shape[i - 1].0, anchor.1 + shape[i - 1].1)
            },
    )
}

/// Every one of `cells` lies on the board.
pub open spec fn all_in_grid(g: Grid, cells: Seq<(int, int)>) -> bool {
    forall|i: int| 0 <= i < cells.len() ==> in_grid(g, #[trigger] cells[i])
}

/// Every one of `cells` lies on the board and is free.
pub open spec fn fits(g: Grid, cells: Seq<(int, int)>) -> bool {
    forall|i: int| 0 <= i < cells.len() ==> is_free(g, #[trigger] cells[i])
}

/// `g` with `value` written into each of `cells`.
pub open spec fn stamp(g: Grid, cells: Seq<(int, int)>, value: usize) -> Grid {
    Seq::new(
        g.len(),
        |y: int|
            Seq::new(
                g[y].len(),
                |x: int|
                    if cells.contains((x, y)) {
                        value
                    } else {
                        g[y][x]
                    },
            ),
    )
}

/// The positions of a `w` by `h` board.
pub open spec fn board_cells(w: nat, h: nat) -> Set<(int, int)> {
    Set::new(|p: (int, int)| 0 <= p.0 < w && 0 <= p.1 < h)
}

/// A board has finitely many cells.
pub proof fn lemma_board_cells_finite(w: nat, h: nat)
    ensures
        board_cells(w, h).finite(),
    decreases h,
{
    if h == 0 {
        assert(board_cells(w, h) =~= Set::<(int, int)>::empty());
    } else {
        let y = (h - 1) as int;
        let to_cell = |x: int| (x, y);
        let row = set_int_range(0, w as int).map(to_cell);
        lemma_int_range(0, w as int);
        set_int_range(0, w as int).lemma_map_finite(to_cell);
        lemma_board_cells_finite(w, (h - 1) as nat);
        assert forall|p: (int, int)| board_cells(w, h).contains(p) implies (board_cells(
            w,
            (h - 1) as nat,
        ).union(row)).contains(p) by {
            if p.1 == y {
                assert(set_int_range(0, w as int).contains(p.0));
                assert(p == to_cell(p.0));
            }
        }
        assert(board_cells(w, h) =~= board_cells(w, (h - 1) as nat).union(row));
    }
}

/// A board has finitely many free cells.
pub proof fn lemma_free_cells_finite(g: Grid, w: nat, h: nat)
    requires
        is_grid(g, w, h),
    ensures
        free_cells(g).finite(),
{
    lemma_board_cells_finite(w, h);
    assert(free_cells(g).subset_of(board_cells(w, h)));
    lemma_set_subset_finite(board_cells(w, h), free_cells(g));
}

/// A board is full exactly when it has no free cell.
pub proof fn lemma_full_iff_no_free(g: Grid, w: nat, h: nat)
    requires
        is_grid(g, w, h),
    ensures
        full(g) <==> free_count(g) == 0,
{
    lemma_free_cells_finite(g, w, h);
    if full(g) {
        assert(free_cells(g) =~= Set::<(int, int)>::empty());
    }
    if free_count(g) == 0 {
        assert(free_cells(g) =~= Set::<(int, int)>::empty()) by {
            free_cells(g).lemma_len0_is_empty();
        }
        assert forall|p: (int, int)| in_grid(g, p) implies g[p.1][p.0] != 0 by {
            if g[p.1][p.0] == 0 {
                assert(free_cells(g).contains(p));
            }
        }
    }
}

/// Stamping keeps the shape of the board.
pub proof fn lemma_stamp_is_grid(g: Grid, w: nat, h: nat, cells: Seq<(int, int)>, value: usize)
    requires
        is_grid(g, w, h),
    ensures
        is_grid(stamp(g, cells, value), w, h),
        forall|p: (int, int)| in_grid(stamp(g, cells, value), p) <==> in_grid(g, p),
{
}

/// A well-formed shape covers pairwise distinct cells.
pub proof fn lemma_footprint_distinct(anchor: (int, int), shape: Seq<Offset>)
    requires
        crate::block::shape_ok(shape),
    ensures
        footprint(anchor, shape).no_duplicates(),
        footprint(anchor, shape).len() == shape.len() + 1,
{
    let cells = footprint(anchor, shape);
    assert forall|i: int, j: int| 0 <= i < cells.len() && 0 <= j < cells.len() && i != j implies cells[i]
        != cells[j] by {
        if i == 0 {
            assert(shape[j - 1] != (0i32, 0i32));
        } else if j == 0 {
            assert(shape[i - 1] != (0i32, 0i32));
        } else if i < j {
            assert(shape[i - 1] != shape[j - 1]);
        } else {
            assert(shape[j - 1] != shape[i - 1]);
        }
    }
}

/// Writing a piece's id into free cells takes exactly those cells out of the
/// free cells: the free count drops by their number.
pub proof fn lemma_stamp_covers(g: Grid, w: nat, h: nat, cells: Seq<(int, int)>, value: usize)
    requires
        is_grid(g, w, h),
        fits(g, cells),
        cells.no_duplicates(),
        value != 0,
    ensures
        free_cells(stamp(g, cells, value)) == free_cells(g).difference(cells.to_set()),
        free_count(stamp(g, cells, value)) + cells.len() == free_count(g),
{
    let after = stamp(g, cells, value);
    let covered = cells.to_set();
    lemma_free_cells_finite(g, w, h);
    assert forall|p: (int, int)| free_cells(after).contains(p) <==> free_cells(g).difference(
        covered,
    ).contains(p) by {
        if in_grid(g, p) {
            assert(after[p.1][p.0] == if cells.contains(p) {
                value
            } else {
                g[p.1][p.0]
            });
        }
    }
    assert(free_cells(after) =~= free_cells(g).difference(covered));
    assert(covered.subset_of(free_cells(g))) by {
        assert forall|p: (int, int)| covered.contains(p) implies free_cells(g).contains(p) by {
            let i = choose|i: int| 0 <= i < cells.len() && cells[i] == p;
            assert(is_free(g, cells[i]));
        }
    }
    cells.unique_seq_to_set();
    lemma_set_subset_finite(free_cells(g), covered);
    lemma_len_difference(free_cells(g), covered);
    assert(free_cells(g).intersect(covered) =~= covered);
    lemma_set_difference_len(free_cells(g), covered);
}

/// Clearing the cells that a stamp wrote into free cells gives the board
/// back.
pub proof fn lemma_stamp_undo(g: Grid, cells: Seq<(int, int)>, value: usize)
    requires
        fits(g, cells),
    ensures
        stamp(stamp(g, cells, value), cells, 0) == g,
{
    let after = stamp(stamp(g, cells, value), cells, 0);
    assert(after.len() == g.len());
    assert forall|y: int| 0 <= y < g.len() implies #[trigger] after[y] == g[y] by {
        assert(after[y].len() == g[y].len());
        assert forall|x: int| 0 <= x < g[y].len() implies after[y][x] == g[y][x] by {
            if cells.contains((x, y)) {
                let i = choose|i: int| 0 <= i < cells.len() && cells[i] == (x, y);
                assert(is_free(g, cells[i]));
            }
        }
        assert(after[y] =~= g[y]);
    }
    assert(after =~= g);
}

} // verus!
