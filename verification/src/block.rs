use vstd::prelude::*;

verus! {

/// A cell offset `(dx, dy)` from the anchor cell of a piece.
pub type Offset = (i32, i32);

/// One orientation of a piece: the cells it covers besides its anchor,
/// each as an offset from the anchor.
#[derive(Debug)]
pub struct BlockGeometry {
    pub points: Vec<Offset>,
}

impl View for BlockGeometry {
    type V = Seq<Offset>;

    open spec fn view(&self) -> Seq<Offset> {
        self.points@
    }
}

/// A piece of the puzzle. The variant is its shape, the field its id.
#[derive(Debug, Clone, Copy, PartialEq, Eq, Structural)]
pub enum Block {
    Line(usize),
    Square(usize),
    Baton(usize),
    Bridge(usize),
    Plus(usize),
    Corner(usize),
    T(usize),
    L(usize),
    DoubleL(usize),
    Cursor(usize),
    Stairs(usize),
    Z(usize),
    Weird(usize),
}

/// The offsets of every orientation lie in this window around the anchor.
pub open spec fn offset_in_window(p: Offset) -> bool {
    -3 <= p.0 <= 4 && 0 <= p.1 <= 4
}

/// A footprint shape: no offset is the anchor itself, none occurs twice,
/// and all lie in the window.
pub open spec fn shape_ok(shape: Seq<Offset>) -> bool {
    &&& forall|i: int| 0 <= i < shape.len() ==> #[trigger] shape[i] != (0i32, 0i32)
    &&& forall|i: int| 0 <= i < shape.len() ==> offset_in_window(#[trigger] shape[i])
    &&& forall|i: int, j: int|
        0 <= i < j < shape.len() ==> #[trigger] shape[i] != #[trigger] shape[j]
}

/// The geometry with the given offsets.
fn shape<const N: usize>(points: [Offset; N]) -> (geometry: BlockGeometry)
    ensures
        geometry@ == points@,
{
    let mut v: Vec<Offset> = Vec::new();
    let mut i: usize = 0;
    while i < N
        invariant
            i <= N,
            v@ == points@.take(i as int),
        decreases N - i,
    {
        v.push(points[i]);
        i += 1;
    }
    BlockGeometry { points: v }
}

impl Block {
    /// The id of the piece.
    pub open spec fn id(self) -> usize {
        match self {
            Block::Line(id) => id,
            Block::Square(id) => id,
            Block::Baton(id) => id,
            Block::Bridge(id) => id,
            Block::Plus(id) => id,
            Block::Corner(id) => id,
            Block::T(id) => id,
            Block::L(id) => id,
            Block::DoubleL(id) => id,
            Block::Cursor(id) => id,
            Block::Stairs(id) => id,
            Block::Z(id) => id,
            Block::Weird(id) => id,
        }
    }

    /// The catalog: the orientations of the piece, in the order in which the
    /// search tries them.
    pub open spec fn shapes(self) -> Seq<Seq<Offset>> {
        match self {
            Block::Line(_) => seq![
                seq![(1i32, 0i32), (2i32, 0i32), (3i32, 0i32), (4i32, 0i32)],
                seq![(0i32, 1i32), (0i32, 2i32), (0i32, 3i32), (0i32, 4i32)],
            ],
            Block::Square(_) => seq![
                seq![(1i32, 0i32), (1i32, 1i32), (0i32, 1i32)],
            ],
            Block::Baton(_) => seq![
                seq![(-2i32, 1i32), (-1i32, 1i32), (0i32, 1i32), (1i32, 1i32)],
                seq![(-1i32, 1i32), (0i32, 1i32), (1i32, 1i32), (2i32, 1i32)],
                seq![(1i32, 0i32), (2i32, 0i32), (3i32, 0i32), (1i32, 1i32)],
                seq![(1i32, 0i32), (2i32, 0i32), (3i32, 0i32), (2i32, 1i32)],
                seq![(-1i32, 1i32), (0i32, 1i32), (0i32, 2i32), (0i32, 3i32)],
                seq![(0i32, 1i32), (1i32, 1i32), (0i32, 2i32), (0i32, 3i32)],
                seq![(-1i32, 2i32), (0i32, 1i32), (0i32, 2i32), (0i32, 3i32)],
                seq![(0i32, 1i32), (1i32, 2i32), (0i32, 2i32), (0i32, 3i32)],
            ],
            Block::Bridge(_) => seq![
                seq![(1i32, 0i32), (2i32, 0i32), (0i32, 1i32), (2i32, 1i32)],
                seq![(1i32, 0i32), (0i32, 1i32), (0i32, 2i32), (1i32, 2i32)],
                seq![(1i32, 1i32), (2i32, 0i32), (0i32, 1i32), (2i32, 1i32)],
                seq![(1i32, 0i32), (1i32, 1i32), (0i32, 2i32), (1i32, 2i32)],
            ],
            Block::Plus(_) => seq![
                seq![(-1i32, 1i32), (0i32, 1i32), (1i32, 1i32), (0i32, 2i32)],
            ],
            Block::Corner(_) => seq![
                seq![(1i32, 0i32), (2i32, 0i32), (0i32, 1i32), (0i32, 2i32)],
                seq![(1i32, 0i32), (2i32, 0i32), (2i32, 1i32), (2i32, 2i32)],
                seq![(-2i32, 2i32), (-1i32, 2i32), (0i32, 2i32), (0i32, 1i32)],
                seq![(0i32, 2i32), (1i32, 2i32), (2i32, 2i32), (0i32, 1i32)],
            ],
            Block::T(_) => seq![
                seq![(1i32, 0i32), (2i32, 0i32), (1i32, 1i32), (1i32, 2i32)],
                seq![(-2i32, 1i32), (-1i32, 1i32), (0i32, 1i32), (0i32, 2i32)],
                seq![(0i32, 1i32), (0i32, 2i32), (-1i32, 2i32), (1i32, 2i32)],
                seq![(0i32, 1i32), (0i32, 2i32), (1i32, 1i32), (2i32, 1i32)],
            ],
            Block::L(_) => seq![
                seq![(0i32, 1i32), (0i32, 2i32), (0i32, 3i32), (1i32, 3i32)],
                seq![(0i32, 1i32), (0i32, 2i32), (0i32, 3i32), (-1i32, 3i32)],
                seq![(1i32, 0i32), (2i32, 0i32), (3i32, 0i32), (0i32, 1i32)],
                seq![(1i32, 0i32), (2i32, 0i32), (3i32, 0i32), (3i32, 1i32)],
                seq![(1i32, 0i32), (1i32, 1i32), (1i32, 2i32), (1i32, 3i32)],
                seq![(1i32, 0i32), (0i32, 1i32), (0i32, 2i32), (0i32, 3i32)],
                seq![(-3i32, 1i32), (-2i32, 1i32), (-1i32, 1i32), (0i32, 1i32)],
                seq![(0i32, 1i32), (1i32, 1i32), (2i32, 1i32), (3i32, 1i32)],
            ],
            Block::DoubleL(_) => seq![
                seq![(0i32, 1i32), (1i32, 1i32), (2i32, 1i32), (2i32, 2i32)],
                seq![(0i32, 1i32), (-2i32, 1i32), (-1i32, 1i32), (-2i32, 2i32)],
                seq![(1i32, 0i32), (0i32, 1i32), (0i32, 2i32), (-1i32, 2i32)],
                seq![(1i32, 0i32), (1i32, 1i32), (1i32, 2i32), (2i32, 2i32)],
            ],
            Block::Cursor(_) => seq![
                seq![(1i32, 0i32), (2i32, 0i32), (0i32, 1i32), (1i32, 1i32)],
                seq![(1i32, 0i32), (2i32, 1i32), (0i32, 1i32), (1i32, 1i32)],
                seq![(1i32, 0i32), (0i32, 1i32), (1i32, 1i32), (1i32, 2i32)],
                seq![(1i32, 0i32), (0i32, 1i32), (1i32, 1i32), (0i32, 2i32)],
                seq![(1i32, 0i32), (-1i32, 1i32), (0i32, 1i32), (1i32, 1i32)],
                seq![(1i32, 0i32), (-1i32, 0i32), (0i32, 1i32), (1i32, 1i32)],
                seq![(0i32, 1i32), (1i32, 1i32), (0i32, 2i32), (1i32, 2i32)],
                seq![(-1i32, 1i32), (0i32, 1i32), (-1i32, 2i32), (0i32, 2i32)],
            ],
            Block::Stairs(_) => seq![
                seq![(-1i32, 1i32), (0i32, 1i32), (-2i32, 2i32), (-1i32, 2i32)],
                seq![(0i32, 1i32), (1i32, 1i32), (1i32, 2i32), (2i32, 2i32)],
                seq![(1i32, 0i32), (0i32, 1i32), (-1i32, 1i32), (-1i32, 2i32)],
                seq![(1i32, 0i32), (1i32, 1i32), (2i32, 1i32), (2i32, 2i32)],
            ],
            Block::Z(_) => seq![
                seq![(1i32, 0i32), (1i32, 1i32), (2i32, 1i32), (3i32, 1i32)],
                seq![(1i32, 0i32), (-2i32, 1i32), (-1i32, 1i32), (0i32, 1i32)],
                seq![(-1i32, 1i32), (0i32, 1i32), (-1i32, 2i32), (-1i32, 3i32)],
                seq![(0i32, 1i32), (1i32, 1i32), (1i32, 2i32), (1i32, 3i32)],
                seq![(1i32, 0i32), (2i32, 0i32), (2i32, 1i32), (3i32, 1i32)],
                seq![(1i32, 0i32), (2i32, 0i32), (-1i32, 1i32), (0i32, 1i32)],
                seq![(0i32, 1i32), (0i32, 2i32), (-1i32, 2i32), (-1i32, 3i32)],
                seq![(0i32, 1i32), (0i32, 2i32), (1i32, 2i32), (1i32, 3i32)],
            ],
            Block::Weird(_) => seq![
                seq![(1i32, 0i32), (1i32, 1i32), (1i32, 2i32), (2i32, 1i32)],
                seq![(1i32, 0i32), (-1i32, 1i32), (0i32, 1i32), (0i32, 2i32)],
                seq![(-2i32, 1i32), (-1i32, 1i32), (0i32, 1i32), (-1i32, 2i32)],
                seq![(0i32, 1i32), (1i32, 1i32), (2i32, 1i32), (1i32, 2i32)],
                seq![(-1i32, 1i32), (0i32, 1i32), (0i32, 2i32), (1i32, 2i32)],
                seq![(0i32, 1i32), (1i32, 1i32), (-1i32, 2i32), (0i32, 2i32)],
                seq![(-1i32, 1i32), (0i32, 1i32), (1i32, 1i32), (-1i32, 2i32)],
                seq![(-1i32, 1i32), (0i32, 1i32), (1i32, 1i32), (1i32, 2i32)],
            ],
        }
    }

    /// The number of cells that the piece covers, anchor included.
    pub open spec fn footprint_size(self) -> nat {
        match self {
            Block::Square(_) => 4,
            _ => 5,
        }
    }

    /// The id of the piece.
    pub fn get_block_id(&self) -> (id: usize)
        ensures
            id == self.id(),
    {
        match self {
            Self::Line(id) => *id,
            Self::Square(id) => *id,
            Self::Baton(id) => *id,
            Self::Bridge(id) => *id,
            Self::Plus(id) => *id,
            Self::Corner(id) => *id,
            Self::T(id) => *id,
            Self::L(id) => *id,
            Self::DoubleL(id) => *id,
            Self::Cursor(id) => *id,
            Self::Stairs(id) => *id,
            Self::Z(id) => *id,
            Self::Weird(id) => *id,
        }
    }

    /// The orientations of the piece, as the catalog lists them.
    pub fn get_geometries(&self) -> (geometries: Vec<BlockGeometry>)
        ensures
            geometries@.len() == self.shapes().len(),
            forall|i: int|
                0 <= i < geometries@.len() ==> (#[trigger] geometries@[i])@ == self.shapes()[i],
    {
        match self {
            Self::Line(_) => vec![
                shape([(1, 0), (2, 0), (3, 0), (4, 0)]),
                shape([(0, 1), (0, 2), (0, 3), (0, 4)]),
            ],
            Self::Square(_) => vec![
                shape([(1, 0), (1, 1), (0, 1)]),
            ],
            Self::Baton(_) => vec![
                shape([(-2, 1), (-1, 1), (0, 1), (1, 1)]),
                shape([(-1, 1), (0, 1), (1, 1), (2, 1)]),
                shape([(1, 0), (2, 0), (3, 0), (1, 1)]),
                shape([(1, 0), (2, 0), (3, 0), (2, 1)]),
                shape([(-1, 1), (0, 1), (0, 2), (0, 3)]),
                shape([(0, 1), (1, 1), (0, 2), (0, 3)]),
                shape([(-1, 2), (0, 1), (0, 2), (0, 3)]),
                shape([(0, 1), (1, 2), (0, 2), (0, 3)]),
            ],
            Self::Bridge(_) => vec![
                shape([(1, 0), (2, 0), (0, 1), (2, 1)]),
                shape([(1, 0), (0, 1), (0, 2), (1, 2)]),
                shape([(1, 1), (2, 0), (0, 1), (2, 1)]),
                shape([(1, 0), (1, 1), (0, 2), (1, 2)]),
            ],
            Self::Plus(_) => vec![
                shape([(-1, 1), (0, 1), (1, 1), (0, 2)]),
            ],
            Self::Corner(_) => vec![
                shape([(1, 0), (2, 0), (0, 1), (0, 2)]),
                shape([(1, 0), (2, 0), (2, 1), (2, 2)]),
                shape([(-2, 2), (-1, 2), (0, 2), (0, 1)]),
                shape([(0, 2), (1, 2), (2, 2), (0, 1)]),
            ],
            Self::T(_) => vec![
                shape([(1, 0), (2, 0), (1, 1), (1, 2)]),
                shape([(-2, 1), (-1, 1), (0, 1), (0, 2)]),
                shape([(0, 1), (0, 2), (-1, 2), (1, 2)]),
                shape([(0, 1), (0, 2), (1, 1), (2, 1)]),
            ],
            Self::L(_) => vec![
                shape([(0, 1), (0, 2), (0, 3), (1, 3)]),
                shape([(0, 1), (0, 2), (0, 3), (-1, 3)]),
                shape([(1, 0), (2, 0), (3, 0), (0, 1)]),
                shape([(1, 0), (2, 0), (3, 0), (3, 1)]),
                shape([(1, 0), (1, 1), (1, 2), (1, 3)]),
                shape([(1, 0), (0, 1), (0, 2), (0, 3)]),
                shape([(-3, 1), (-2, 1), (-1, 1), (0, 1)]),
                shape([(0, 1), (1, 1), (2, 1), (3, 1)]),
            ],
            Self::DoubleL(_) => vec![
                shape([(0, 1), (1, 1), (2, 1), (2, 2)]),
                shape([(0, 1), (-2, 1), (-1, 1), (-2, 2)]),
                shape([(1, 0), (0, 1), (0, 2), (-1, 2)]),
                shape([(1, 0), (1, 1), (1, 2), (2, 2)]),
            ],
            Self::Cursor(_) => vec![
                shape([(1, 0), (2, 0), (0, 1), (1, 1)]),
                shape([(1, 0), (2, 1), (0, 1), (1, 1)]),
                shape([(1, 0), (0, 1), (1, 1), (1, 2)]),
                shape([(1, 0), (0, 1), (1, 1), (0, 2)]),
                shape([(1, 0), (-1, 1), (0, 1), (1, 1)]),
                shape([(1, 0), (-1, 0), (0, 1), (1, 1)]),
                shape([(0, 1), (1, 1), (0, 2), (1, 2)]),
                shape([(-1, 1), (0, 1), (-1, 2), (0, 2)]),
            ],
            Self::Stairs(_) => vec![
                shape([(-1, 1), (0, 1), (-2, 2), (-1, 2)]),
                shape([(0, 1), (1, 1), (1, 2), (2, 2)]),
                shape([(1, 0), (0, 1), (-1, 1), (-1, 2)]),
                shape([(1, 0), (1, 1), (2, 1), (2, 2)]),
            ],
            Self::Z(_) => vec![
                shape([(1, 0), (1, 1), (2, 1), (3, 1)]),
                shape([(1, 0), (-2, 1), (-1, 1), (0, 1)]),
                shape([(-1, 1), (0, 1), (-1, 2), (-1, 3)]),
                shape([(0, 1), (1, 1), (1, 2), (1, 3)]),
                shape([(1, 0), (2, 0), (2, 1), (3, 1)]),
                shape([(1, 0), (2, 0), (-1, 1), (0, 1)]),
                shape([(0, 1), (0, 2), (-1, 2), (-1, 3)]),
                shape([(0, 1), (0, 2), (1, 2), (1, 3)]),
            ],
            Self::Weird(_) => vec![
                shape([(1, 0), (1, 1), (1, 2), (2, 1)]),
                shape([(1, 0), (-1, 1), (0, 1), (0, 2)]),
                shape([(-2, 1), (-1, 1), (0, 1), (-1, 2)]),
                shape([(0, 1), (1, 1), (2, 1), (1, 2)]),
                shape([(-1, 1), (0, 1), (0, 2), (1, 2)]),
                shape([(0, 1), (1, 1), (-1, 2), (0, 2)]),
                shape([(-1, 1), (0, 1), (1, 1), (-1, 2)]),
                shape([(-1, 1), (0, 1), (1, 1), (1, 2)]),
            ],
        }
    }
}

/// Every orientation in the catalog is a well-formed shape, and with its
/// anchor it covers as many cells as the piece's footprint size says.
pub proof fn lemma_catalog_shapes(block: Block, rotation: int)
    requires
        0 <= rotation < block.shapes().len(),
    ensures
        shape_ok(block.shapes()[rotation]),
        block.shapes()[rotation].len() + 1 == block.footprint_size(),
{
    let s = block.shapes()[rotation];
    assert(s.len() == 3 || s.len() == 4);
    assert(forall|i: int| 0 <= i < s.len() ==> #[trigger] s[i] != (0i32, 0i32));
    assert(forall|i: int| 0 <= i < s.len() ==> offset_in_window(#[trigger] s[i]));
    assert(forall|i: int, j: int| 0 <= i < j < s.len() ==> #[trigger] s[i] != #[trigger] s[j]);
}

} // verus!
