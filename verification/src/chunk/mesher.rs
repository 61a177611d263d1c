//! Greedy meshing of an octree of blocks into quads.
use vstd::prelude::*;
use crate::octree::octant_face::OctantFace;
use crate::point::Point3;
use crate::chunk::Block;
use crate::octree::Octree;
use crate::octree::octant_dimensions::Number;
use vstd::arithmetic::power2::{pow2, lemma2_to64};

verus! {

/// The three coordinate axes.
#[derive(Eq, PartialEq, Structural, Debug, Copy, Clone)]
pub enum Axis {
    X,
    Y,
    Z,
}

impl Axis {
    pub open spec fn spec_index(self) -> nat {
        match self {
            Axis::X => 0,
            Axis::Y => 1,
            Axis::Z => 2,
        }
    }

    /// The following axis: X, then Y, then Z, then X again.
    pub fn next(&self) -> (r: Axis)
        ensures
            r.spec_index() == (self.spec_index() + 1) % 3,
    {
        match self {
            Axis::X => Axis::Y,
            Axis::Y => Axis::Z,
            Axis::Z => Axis::X,
        }
    }

    pub fn index(&self) -> (r: usize)
        ensures
            r == self.spec_index(),
    {
        match self {
            Axis::X => 0,
            Axis::Y => 1,
            Axis::Z => 2,
        }
    }

    /// The face of a cube that faces the positive direction of the axis.
    pub fn front_face(&self) -> (r: OctantFace)
        ensures
            r == front_face_of(*self),
    {
        match self {
            Axis::X => OctantFace::Right,
            Axis::Y => OctantFace::Up,
            Axis::Z => OctantFace::Back,
        }
    }

    /// The face of a cube that faces the negative direction of the axis.
    pub fn back_face(&self) -> (r: OctantFace)
        ensures
            r == back_face_of(*self),
    {
        match self {
            Axis::X => OctantFace::Left,
            Axis::Y => OctantFace::Down,
            Axis::Z => OctantFace::Front,
        }
    }
}

/// The face of a cube that faces the positive direction of `d`.
pub open spec fn front_face_of(d: Axis) -> OctantFace {
    match d {
        Axis::X => OctantFace::Right,
        Axis::Y => OctantFace::Up,
        Axis::Z => OctantFace::Back,
    }
}

/// The face of a cube that faces the negative direction of `d`.
pub open spec fn back_face_of(d: Axis) -> OctantFace {
    match d {
        Axis::X => OctantFace::Left,
        Axis::Y => OctantFace::Down,
        Axis::Z => OctantFace::Front,
    }
}

/// The face a quad on a plane across `d` shows: the back face when the
/// filled cell lies on the positive side of the plane.
pub open spec fn face_of(d: Axis, back: bool) -> OctantFace {
    if back {
        back_face_of(d)
    } else {
        front_face_of(d)
    }
}

/// The point whose coordinate along `d` is `c`, along the next axis `i` and
/// along the axis after that `j`.
pub open spec fn plane_point(d: Axis, c: int, i: int, j: int) -> (int, int, int) {
    match d {
        Axis::X => (c, i, j),
        Axis::Y => (j, c, i),
        Axis::Z => (i, j, c),
    }
}

/// What a mask records of two neighbouring cells: the block of the one that
/// is filled, and whether it is the second one, if exactly one is filled.
pub open spec fn face_between(first: Option<Block>, second: Option<Block>) -> MaskCell {
    match (first, second) {
        (Some(b), None) => Some((b, false)),
        (None, Some(b)) => Some((b, true)),
        _ => None,
    }
}

/// A plane point shifted by `offset`.
pub open spec fn corner(offset: Point3<u16>, d: Axis, c: int, i: int, j: int) -> Point3<i32> {
    let p = plane_point(d, c, i, j);
    Point3 { x: (offset.x + p.0) as i32, y: (offset.y + p.1) as i32, z: (offset.z + p.2) as i32 }
}

/// The axis that a face is perpendicular to.
pub open spec fn face_axis(face: OctantFace) -> Axis {
    match face {
        OctantFace::Left | OctantFace::Right => Axis::X,
        OctantFace::Up | OctantFace::Down => Axis::Y,
        OctantFace::Back | OctantFace::Front => Axis::Z,
    }
}

pub fn axis(face: &OctantFace) -> (r: Axis)
    ensures
        r == face_axis(*face),
{
    match face {
        OctantFace::Left | OctantFace::Right => Axis::X,
        OctantFace::Up | OctantFace::Down => Axis::Y,
        OctantFace::Back | OctantFace::Front => Axis::Z,
    }
}

/// Whether the face is one of `Left`, `Up` and `Back`.
pub fn is_back_face(face: &OctantFace) -> (r: bool)
    ensures
        r == (*face == OctantFace::Left || *face == OctantFace::Up || *face == OctantFace::Back),
{
    match face {
        OctantFace::Left | OctantFace::Up | OctantFace::Back => true,
        OctantFace::Right | OctantFace::Down | OctantFace::Front => false,
    }
}

/// `Some(())` exactly when `pred` holds.
pub fn as_option(pred: bool) -> (r: Option<()>)
    ensures
        r is Some <==> pred,
{
    if pred {
        Some(())
    } else {
        None
    }
}

/// A rectangle of a mesh: its four corners, its block and the face it shows.
#[derive(Debug, Eq, PartialEq, Clone, Copy)]
pub struct Quad {
    pub bottom_left: Point3<i32>,
    pub top_left: Point3<i32>,
    pub bottom_right: Point3<i32>,
    pub top_right: Point3<i32>,
    pub block: Block,
    pub face: OctantFace,
}

/// The first coordinate within the plane of a face: y for x faces, z for y
/// faces, x for z faces.
pub open spec fn first_coord(face: OctantFace, p: Point3<i32>) -> i32 {
    match face_axis(face) {
        Axis::X => p.y,
        Axis::Y => p.z,
        Axis::Z => p.x,
    }
}

/// The second coordinate within the plane of a face: z for x faces, x for y
/// faces, y for z faces.
pub open spec fn second_coord(face: OctantFace, p: Point3<i32>) -> i32 {
    match face_axis(face) {
        Axis::X => p.z,
        Axis::Y => p.x,
        Axis::Z => p.y,
    }
}

impl Quad {
    pub fn new(
        bottom_left: Point3<i32>,
        top_left: Point3<i32>,
        bottom_right: Point3<i32>,
        top_right: Point3<i32>,
        block: Block,
        face: OctantFace,
    ) -> (r: Self)
        ensures
            r == (Quad { bottom_left, top_left, bottom_right, top_right, block, face }),
    {
        Quad { bottom_left, top_left, bottom_right, top_right, block, face }
    }

    pub fn u(&self) -> (r: i32)
        ensures
            r == first_coord(self.face, self.bottom_left),
    {
        match self.face {
            OctantFace::Left | OctantFace::Right => self.bottom_left.y,
            OctantFace::Up | OctantFace::Down => self.bottom_left.z,
            OctantFace::Front | OctantFace::Back => self.bottom_left.x,
        }
    }

    pub fn v(&self) -> (r: i32)
        ensures
            r == second_coord(self.face, self.bottom_left),
    {
        match self.face {
            OctantFace::Left | OctantFace::Right => self.bottom_left.z,
            OctantFace::Up | OctantFace::Down => self.bottom_left.x,
            OctantFace::Front | OctantFace::Back => self.bottom_left.y,
        }
    }

    /// The extent of the quad along its first coordinate.
    pub fn width(&self) -> (r: i32)
        requires
            i32::MIN <= first_coord(self.face, self.top_right) - first_coord(self.face, self.bottom_left) <= i32::MAX,
        ensures
            r == first_coord(self.face, self.top_right) - first_coord(self.face, self.bottom_left),
    {
        match self.face {
            OctantFace::Left | OctantFace::Right => self.top_right.y - self.bottom_left.y,
            OctantFace::Up | OctantFace::Down => self.top_right.z - self.bottom_left.z,
            OctantFace::Front | OctantFace::Back => self.top_right.x - self.bottom_left.x,
        }
    }

    /// The extent of the quad along its second coordinate.
    pub fn height(&self) -> (r: i32)
        requires
            i32::MIN <= second_coord(self.face, self.top_right) - second_coord(self.face, self.bottom_left) <= i32::MAX,
        ensures
            r == second_coord(self.face, self.top_right) - second_coord(self.face, self.bottom_left),
    {
        match self.face {
            OctantFace::Left | OctantFace::Right => self.top_right.z - self.bottom_left.z,
            OctantFace::Up | OctantFace::Down => self.top_right.x - self.bottom_left.x,
            OctantFace::Front | OctantFace::Back => self.top_right.y - self.bottom_left.y,
        }
    }
}

/// One entry of a face mask: the block whose face is visible and whether it
/// is the back face, if exactly one of the two neighbouring cells is filled.
pub type MaskCell = Option<(Block, bool)>;

pub fn cell_eq(a: &MaskCell, b: &MaskCell) -> (r: bool)
    ensures
        r == (*a == *b),
{
    match (a, b) {
        (None, None) => true,
        (Some((ba, fa)), Some((bb, fb))) => *ba == *bb && *fa == *fb,
        _ => false,
    }
}

/// The number of leading entries of `mask` equal to its first, at most `size`.
pub open spec fn run_len(mask: Seq<MaskCell>, size: int) -> int
    decreases size,
{
    if size <= 0 || mask.len() == 0 {
        0
    } else if run_len(mask, size - 1) == size - 1 && size - 1 < mask.len() && mask[size - 1] == mask[0] {
        size
    } else {
        run_len(mask, size - 1)
    }
}

/// Row `r` of `mask` cut in rows of `size`, its first `w` entries all equal to the mask's first entry.
pub open spec fn row_matches(mask: Seq<MaskCell>, size: int, w: int, r: int) -> bool {
    forall|c: int| 0 <= c < w && r * size + c < mask.len() ==> #[trigger] mask[r * size + c] == mask[0]
}

/// The number of leading rows, at most `size`, that start inside `mask` and match.
pub open spec fn rows_len(mask: Seq<MaskCell>, size: int, w: int, rows: int) -> int
    decreases rows,
{
    if rows <= 0 {
        0
    } else if rows_len(mask, size, w, rows - 1) == rows - 1 && (rows - 1) * size < mask.len()
        && row_matches(mask, size, w, rows - 1) {
        rows
    } else {
        rows_len(mask, size, w, rows - 1)
    }
}

/// A point with one coordinate replaced.
pub open spec fn with_coord(p: Point3<i32>, a: Axis, v: i32) -> Point3<i32> {
    match a {
        Axis::X => Point3 { x: v, ..p },
        Axis::Y => Point3 { y: v, ..p },
        Axis::Z => Point3 { z: v, ..p },
    }
}

pub fn set_coord(p: Point3<i32>, a: Axis, v: i32) -> (r: Point3<i32>)
    ensures
        r == with_coord(p, a, v),
{
    match a {
        Axis::X => Point3::new(v, p.y, p.z),
        Axis::Y => Point3::new(p.x, v, p.z),
        Axis::Z => Point3::new(p.x, p.y, v),
    }
}

/// Meshes an octree of blocks of height at most 8.
pub struct Mesher<'a> {
    pub octree: &'a Octree<Block>,
    pub offset: Point3<u16>,
    pub size: usize,
}

impl<'a> Mesher<'a> {
    pub open spec fn wf(self) -> bool {
        &&& self.octree.wf()
        &&& self.octree.height <= 8
        &&& self.size == pow2(self.octree.height as nat)
        &&& self.offset == self.octree.bounds.bottom_left
    }

    pub fn new(octree: &'a Octree<Block>) -> (r: Self)
        requires
            octree.wf(),
            octree.height <= 8,
        ensures
            r.wf(),
            r.octree == octree,
    {
        let p = octree.root_point();
        proof {
            crate::octree::octant_dimensions::lemma_pow2_monotone(octree.height as nat, 8);
            lemma2_to64();
        }
        Mesher { octree, offset: p, size: octree.bounds.diameter as usize }
    }

    /// The index of `(x, y, z)` in an array of the octree's cells, x changing fastest.
    pub fn to_index(&self, x: usize, y: usize, z: usize) -> (r: usize)
        requires
            self.size <= 256,
            x < self.size,
            y < self.size,
            z < self.size,
        ensures
            r == x + y * self.size + z * self.size * self.size,
            r < self.size * self.size * self.size,
    {
        proof {
            let s = self.size as int;
            assert(y * s < s * s && s * s <= 65536 && z * s < s * s && (z * s) * s < s * s * s
                && x + y * s + (z * s) * s < s * s * s && s * s * s <= 256 * 256 * 256) by (nonlinear_arith)
                requires
                    x < s,
                    y < s,
                    z < s,
                    s <= 256,
            ;
        }
        let zs = z * self.size;
        x + y * self.size + zs * self.size
    }

    /// The width and height of the rectangle of entries equal to the first
    /// one that starts the mask, the mask cut in rows of the mesher's size.
    pub fn determine_quad_dimensions(&self, mask: &[MaskCell]) -> (r: (usize, usize))
        requires
            1 <= self.size <= 256,
            mask@.len() >= 1,
        ensures
            r.0 == run_len(mask@, self.size as int),
            r.1 == rows_len(mask@, self.size as int, r.0 as int, self.size as int),
            1 <= r.0 <= self.size,
            1 <= r.1 <= self.size,
    {
        let test = &mask[0];
        let mut w: usize = 0;
        let mut scanning = true;
        let mut i: usize = 0;
        while i < self.size
            invariant
                1 <= self.size <= 256,
                mask@.len() >= 1,
                *test == mask@[0],
                i <= self.size,
                scanning ==> w == i && run_len(mask@, i as int) == i,
                !scanning ==> w < i && run_len(mask@, i as int) == w,
            decreases self.size - i,
        {
            if scanning && i < mask.len() && cell_eq(test, &mask[i]) {
                w = i + 1;
            } else {
                scanning = false;
            }
            i = i + 1;
        }
        proof {
            assert(run_len(mask@, 0) == 0);
            assert(run_len(mask@, 1) == 1);
            lemma_run_len_prefix(mask@, 1, self.size as int);
        }
        let mut h: usize = 0;
        let mut counting = true;
        let mut r: usize = 0;
        while r < self.size
            invariant
                1 <= self.size <= 256,
                mask@.len() >= 1,
                *test == mask@[0],
                1 <= w <= self.size,
                r <= self.size,
                counting ==> h == r && rows_len(mask@, self.size as int, w as int, r as int) == r,
                !counting ==> h < r && rows_len(mask@, self.size as int, w as int, r as int) == h,
            decreases self.size - r,
        {
            assert(r * self.size < 65536) by (nonlinear_arith)
                requires
                    r < self.size,
                    self.size <= 256,
            ;
            if counting && r * self.size < mask.len() {
                let start = r * self.size;
                let mut all = true;
                let mut c: usize = 0;
                while c < w
                    invariant
                        1 <= self.size <= 256,
                        *test == mask@[0],
                        start == r * self.size,
                        start < mask@.len(),
                        c <= w,
                        all <==> forall|cc: int| 0 <= cc < c && start + cc < mask@.len() ==> #[trigger] mask@[start + cc] == mask@[0],
                    decreases w - c,
                {
                    if c < mask.len() - start {
                        if !cell_eq(test, &mask[start + c]) {
                            all = false;
                        }
                    }
                    c = c + 1;
                }
                if all {
                    h = r + 1;
                } else {
                    counting = false;
                }
            } else {
                counting = false;
            }
            r = r + 1;
        }
        proof {
            assert(row_matches(mask@, self.size as int, w as int, 0)) by {
                assert forall|c: int| 0 <= c < w && 0 * self.size + c < mask@.len() implies #[trigger] mask@[0 * self.size + c] == mask@[0] by {
                    lemma_run_len_elements(mask@, self.size as int, c);
                }
            }
            assert(rows_len(mask@, self.size as int, w as int, 0) == 0);
            assert(0 * self.size < mask@.len());
            assert(rows_len(mask@, self.size as int, w as int, 1) == 1);
            lemma_rows_len_prefix(mask@, self.size as int, w as int, 1, self.size as int);
            law_quad_dimensions(mask@, self.size as int);
        }
        (w, h)
    }
}


impl<'a> Mesher<'a> {
    /// The block in the cell at `p`, taken relative to the offset; nothing
    /// outside the mesher's cube.
    pub open spec fn cell(self, p: (int, int, int)) -> Option<Block> {
        if 0 <= p.0 < self.size && 0 <= p.1 < self.size && 0 <= p.2 < self.size {
            self.octree.lookup(
                Point3 {
                    x: (self.offset.x + p.0) as u16,
                    y: (self.offset.y + p.1) as u16,
                    z: (self.offset.z + p.2) as u16,
                },
            )
        } else {
            None
        }
    }

    /// The face, if any, between the cells at `c` and `c + 1` along `d`, at
    /// `i` and `j` along the two other axes.
    pub open spec fn mask_cell(self, d: Axis, c: int, i: int, j: int) -> MaskCell {
        face_between(self.cell(plane_point(d, c, i, j)), self.cell(plane_point(d, c + 1, i, j)))
    }

    /// The quad on the plane between the cells at `c` and `c + 1` along `d`
    /// with its corner at `i`, `j`, `w` wide and `h` high.
    pub open spec fn quad_at(self, d: Axis, c: int, i: int, j: int, w: int, h: int, block: Block, back: bool) -> Quad {
        Quad {
            bottom_left: corner(self.offset, d, c + 1, i, j),
            top_left: corner(self.offset, d, c + 1, i, j + h),
            bottom_right: corner(self.offset, d, c + 1, i + w, j),
            top_right: corner(self.offset, d, c + 1, i + w, j + h),
            block,
            face: face_of(d, back),
        }
    }

    /// A quad of the mesh: it lies on one of the planes between cells, its
    /// corner is a cell of that plane, it is one to `size` cells wide and
    /// high, and its block and face are those of a visible face of that plane.
    pub open spec fn is_mesh_quad(self, q: Quad) -> bool {
        exists|d: Axis, c: int, i: int, j: int, w: int, h: int, ki: int, kj: int, back: bool|
            #![trigger self.quad_at(d, c, i, j, w, h, q.block, back), self.mask_cell(d, c, ki, kj)]
            {
                &&& -1 <= c < self.size
                &&& 0 <= i < self.size
                &&& 0 <= j < self.size
                &&& 1 <= w <= self.size
                &&& 1 <= h <= self.size
                &&& 0 <= ki < self.size
                &&& 0 <= kj < self.size
                &&& self.mask_cell(d, c, ki, kj) == Some((q.block, back))
                &&& q == self.quad_at(d, c, i, j, w, h, q.block, back)
            }
    }

    /// The quads that the greedy scan of the mask of the plane between the
    /// cells at `c` and `c + 1` along `d` produces, from entry `n` of `mask`,
    /// at `i` along row `j`: an empty entry is passed; at a visible face, the
    /// quad as wide as the run of equal entries that starts there (at most
    /// `size`, possibly running on into the next row) and as high as the
    /// number of rows that start with that many such entries, after which
    /// those entries are cleared and the scan goes on past the run. A row
    /// ends when `size` entries were passed or the mask has ended; the scan
    /// ends after `size` rows.
    pub open spec fn scan(self, d: Axis, c: int, mask: Seq<MaskCell>, n: int, i: int, j: int) -> Seq<Quad>
        decreases self.size - j, mask.len() - n,
    {
        if j >= self.size {
            Seq::empty()
        } else if i < 0 || i >= self.size || n < 0 || n >= mask.len() {
            self.scan(d, c, mask, n, 0, j + 1)
        } else {
            match mask[n] {
                None => self.scan(d, c, mask, n + 1, i + 1, j),
                Some(entry) => {
                    let rest = mask.subrange(n, mask.len() as int);
                    let w = run_len(rest, self.size as int);
                    let h = rows_len(rest, self.size as int, w, self.size as int);
                    proof {
                        lemma_run_len_positive(rest, self.size as int);
                        lemma_run_len_le_len(rest, self.size as int);
                        lemma_clear_rect_len(mask, n, w, self.size as int, h);
                    }
                    seq![self.quad_at(d, c, i, j, w, h, entry.0, entry.1)] + self.scan(
                        d,
                        c,
                        clear_rect(mask, n, w, self.size as int, h),
                        n + w,
                        i + w,
                        j,
                    )
                },
            }
        }
    }

    /// The quads of the plane between the cells at `c` and `c + 1` along
    /// `d`: the scan of its whole mask, row `j` holding the faces at `j`
    /// along the axis after the next one.
    pub open spec fn plane_quads(self, d: Axis, c: int) -> Seq<Quad> {
        self.scan(
            d,
            c,
            Seq::new(
                (self.size * self.size) as nat,
                |n: int| self.mask_cell(d, c, n % (self.size as int), n / (self.size as int)),
            ),
            0,
            0,
            0,
        )
    }

    /// The quads of the first `k` planes across `d`, from the one at `-1` on.
    pub open spec fn planes(self, d: Axis, k: nat) -> Seq<Quad>
        decreases k,
    {
        if k == 0 {
            Seq::empty()
        } else {
            self.planes(d, (k - 1) as nat) + self.plane_quads(d, k - 2)
        }
    }

    /// The quads of the planes across the first `a` of the axes X, Y and Z.
    pub open spec fn axes_quads(self, a: nat) -> Seq<Quad>
        decreases a,
    {
        if a == 0 {
            Seq::empty()
        } else {
            self.axes_quads((a - 1) as nat) + self.planes(axis_of(a - 1), (self.size + 1) as nat)
        }
    }

    /// The greedy mesh of the octree: the quads of the `size + 1` planes
    /// across X, from the one before the first cell to the one after the
    /// last, then those across Y, then those across Z.
    pub open spec fn mesh_quads(self) -> Seq<Quad> {
        self.planes(Axis::X, (self.size + 1) as nat) + self.planes(Axis::Y, (self.size + 1) as nat) + self.planes(
            Axis::Z,
            (self.size + 1) as nat,
        )
    }

    /// The block at `(x, y, z)` relative to the offset, if the cell is
    /// inside the cube and filled.
    fn block_at(&self, x: i32, y: i32, z: i32) -> (r: Option<Block>)
        requires
            self.wf(),
        ensures
            r == self.cell((x as int, y as int, z as int)),
    {
        proof {
            crate::octree::octant_dimensions::lemma_pow2_monotone(self.octree.height as nat, 8);
            lemma2_to64();
        }
        let s = self.size as i32;
        if 0 <= x && x < s && 0 <= y && y < s && 0 <= z && z < s {
            let p = Point3::new(self.offset.x + x as u16, self.offset.y + y as u16, self.offset.z + z as u16);
            self.octree.get(&p)
        } else {
            None
        }
    }

    /// The point at `c` along `d`, `i` and `j` along the two other axes, moved by the offset.
    fn plane_corner(&self, d: Axis, c: i32, i: i32, j: i32) -> (r: Point3<i32>)
        requires
            0 <= c <= 1024,
            0 <= i <= 1024,
            0 <= j <= 1024,
        ensures
            r == corner(self.offset, d, c as int, i as int, j as int),
    {
        let (x, y, z) = match d {
            Axis::X => (c, i, j),
            Axis::Y => (j, c, i),
            Axis::Z => (i, j, c),
        };
        Point3::new(self.offset.x as i32 + x, self.offset.y as i32 + y, self.offset.z as i32 + z)
    }

    /// The faces on the plane between the cells at `c` and `c + 1` along
    /// `d`, row after row: entry `i + j * size` for `i` along the next axis
    /// and `j` along the one after it.
    fn fill_mask(&self, d: Axis, c: i32) -> (mask: Vec<MaskCell>)
        requires
            self.wf(),
            -1 <= c < self.size,
        ensures
            mask@ =~= Seq::new(
                (self.size * self.size) as nat,
                |n: int| self.mask_cell(d, c as int, n % (self.size as int), n / (self.size as int)),
            ),
    {
        proof {
            crate::octree::octant_dimensions::lemma_pow2_monotone(self.octree.height as nat, 8);
            crate::octree::octant_dimensions::lemma_pow2_monotone(0, self.octree.height as nat);
            lemma2_to64();
        }
        let size = self.size;
        let ghost s = size as int;
        let mut mask: Vec<MaskCell> = Vec::new();
        let mut j: usize = 0;
        while j < size
            invariant
                self.wf(),
                size == self.size,
                s == size,
                1 <= size <= 256,
                -1 <= c < size,
                j <= size,
                mask@ =~= Seq::new((j * size) as nat, |n: int| self.mask_cell(d, c as int, n % s, n / s)),
            decreases size - j,
        {
            let mut i: usize = 0;
            while i < size
                invariant
                    self.wf(),
                    size == self.size,
                    s == size,
                    1 <= size <= 256,
                    -1 <= c < size,
                    j < size,
                    i <= size,
                    mask@ =~= Seq::new((i + j * size) as nat, |n: int| self.mask_cell(d, c as int, n % s, n / s)),
                decreases size - i,
            {
                proof {
                    assert(j * size < 65536) by (nonlinear_arith)
                        requires
                            j < size,
                            size <= 256,
                    ;
                    vstd::arithmetic::div_mod::lemma_fundamental_div_mod_converse(i + j * s, s, j as int, i as int);
                }
                let ii = i as i32;
                let jj = j as i32;
                let (p0, p1, p2) = match d {
                    Axis::X => (c, ii, jj),
                    Axis::Y => (jj, c, ii),
                    Axis::Z => (ii, jj, c),
                };
                let (q0, q1, q2) = match d {
                    Axis::X => (c + 1, ii, jj),
                    Axis::Y => (jj, c + 1, ii),
                    Axis::Z => (ii, jj, c + 1),
                };
                let first = self.block_at(p0, p1, p2);
                let second = self.block_at(q0, q1, q2);
                let entry: MaskCell = match (first, second) {
                    (Some(b), None) => Some((b, false)),
                    (None, Some(b)) => Some((b, true)),
                    _ => None,
                };
                mask.push(entry);
                i = i + 1;
            }
            proof {
                assert((size + j * size) as int == ((j + 1) * size) as int) by (nonlinear_arith);
            }
            j = j + 1;
        }
        mask
    }
    /// Turns the faces of one plane into quads, greedily: at each visible
    /// face that no earlier quad took, the largest rectangle of equal
    /// entries that starts there becomes a quad and its entries are cleared.
    /// A run of equal entries may continue past the end of its row into the
    /// next one; the quad is then that wide, the scan of the row ends, and
    /// entries to clear that would lie past the end of the mask are skipped.
    #[verifier::rlimit(60)]
    fn mesh_mask(&self, mask: &mut Vec<MaskCell>, d: Axis, c: i32, quads: &mut Vec<Quad>)
        requires
            self.wf(),
            -1 <= c < self.size,
            old(mask)@.len() == self.size * self.size,
            forall|n: int|
                0 <= n < old(mask)@.len() && (#[trigger] old(mask)@[n]) is Some ==> old(mask)@[n]
                    == self.mask_cell(d, c as int, n % (self.size as int), n / (self.size as int)),
            forall|k: int| 0 <= k < old(quads)@.len() ==> self.is_mesh_quad(#[trigger] old(quads)@[k]),
        ensures
            forall|k: int| 0 <= k < final(quads)@.len() ==> self.is_mesh_quad(#[trigger] final(quads)@[k]),
            final(quads)@ == old(quads)@ + self.scan(d, c as int, old(mask)@, 0, 0, 0),
    {
        proof {
            crate::octree::octant_dimensions::lemma_pow2_monotone(self.octree.height as nat, 8);
            crate::octree::octant_dimensions::lemma_pow2_monotone(0, self.octree.height as nat);
            lemma2_to64();
        }
        let size = self.size;
        let ghost s = size as int;
        let ghost quads0 = old(quads)@;
        let ghost target = old(quads)@ + self.scan(d, c as int, old(mask)@, 0, 0, 0);
        assert(size * size <= 65536) by (nonlinear_arith)
            requires
                size <= 256,
        ;
        let mut n: usize = 0;
        let mut j: usize = 0;
        while j < size
            invariant
                self.wf(),
                size == self.size,
                s == size,
                1 <= size <= 256,
                -1 <= c < size,
                j <= size,
                mask@.len() == size * size,
                forall|m: int|
                    0 <= m < mask@.len() && (#[trigger] mask@[m]) is Some ==> mask@[m]
                        == self.mask_cell(d, c as int, m % s, m / s),
                forall|k: int| 0 <= k < quads@.len() ==> self.is_mesh_quad(#[trigger] quads@[k]),
                quads@ + self.scan(d, c as int, mask@, n as int, 0, j as int) == target,
                n <= 65536 + 256,
                size * size <= 65536,
            decreases size - j,
        {
            let mut i: usize = 0;
            while i < size && n < mask.len()
                invariant
                    self.wf(),
                    size == self.size,
                    s == size,
                    1 <= size <= 256,
                    -1 <= c < size,
                    j < size,
                    i <= 2 * size,
                    mask@.len() == size * size,
                    forall|m: int|
                        0 <= m < mask@.len() && (#[trigger] mask@[m]) is Some ==> mask@[m]
                            == self.mask_cell(d, c as int, m % s, m / s),
                    forall|k: int| 0 <= k < quads@.len() ==> self.is_mesh_quad(#[trigger] quads@[k]),
                    quads@ + self.scan(d, c as int, mask@, n as int, i as int, j as int) == target,
                    n <= 65536 + 256,
                    size * size <= 65536,
                decreases 2 * size - i,
            {
                if mask[n].is_none() {
                    proof {
                        assert(self.scan(d, c as int, mask@, n as int, i as int, j as int) == self.scan(
                            d,
                            c as int,
                            mask@,
                            n + 1,
                            i + 1,
                            j as int,
                        ));
                    }
                    i = i + 1;
                    n = n + 1;
                } else {
                    let ghost mask_before = mask@;
                    let ghost quads_before = quads@;
                    let (w, h) = self.determine_quad_dimensions(&mask.as_slice()[n..mask.len()]);
                    let (block, back) = mask[n].unwrap();
                    let face = if back {
                        d.back_face()
                    } else {
                        d.front_face()
                    };
                    let c1 = c + 1;
                    let ii = i as i32;
                    let jj = j as i32;
                    let wi = w as i32;
                    let hi = h as i32;
                    let quad = Quad::new(
                        self.plane_corner(d, c1, ii, jj),
                        self.plane_corner(d, c1, ii, jj + hi),
                        self.plane_corner(d, c1, ii + wi, jj),
                        self.plane_corner(d, c1, ii + wi, jj + hi),
                        block,
                        face,
                    );
                    proof {
                        let ki = n as int % s;
                        let kj = n as int / s;
                        assert(0 <= kj < s) by (nonlinear_arith)
                            requires
                                kj == n as int / s,
                                0 <= n < s * s,
                                s >= 1,
                        ;
                        assert(self.mask_cell(d, c as int, ki, kj) == Some((block, back)));
                        assert(quad == self.quad_at(d, c as int, i as int, j as int, w as int, h as int, block, back));
                        assert(self.is_mesh_quad(quad));
                    }
                    quads.push(quad);
                    let mut l: usize = 0;
                    while l < h
                        invariant
                            size == self.size,
                            s == size,
                            1 <= size <= 256,
                            h <= size,
                            w <= size,
                            n <= 65536 + 512,
                            l <= h,
                            mask@.len() == size * size,
                            forall|m: int|
                                0 <= m < mask@.len() && (#[trigger] mask@[m]) is Some ==> mask@[m]
                                    == self.mask_cell(d, c as int, m % s, m / s),
                            mask@ == clear_rect(mask_before, n as int, w as int, s, l as int),
                        decreases h - l,
                    {
                        let ghost row_before = mask@;
                        proof {
                            assert(clear_run(row_before, n + l * s, 0) =~= row_before);
                        }
                        let mut k: usize = n;
                        while k < n + w
                            invariant
                                size == self.size,
                                s == size,
                                1 <= size <= 256,
                                w <= size,
                                n <= 65536 + 512,
                                l < h,
                                h <= size,
                                n <= k <= n + w,
                                mask@.len() == size * size,
                                forall|m: int|
                                    0 <= m < mask@.len() && (#[trigger] mask@[m]) is Some ==> mask@[m]
                                        == self.mask_cell(d, c as int, m % s, m / s),
                                row_before.len() == size * size,
                                mask@ == clear_run(row_before, n + l * s, k - n),
                            decreases n + w - k,
                        {
                            proof {
                                assert(l * size <= 65536) by (nonlinear_arith)
                                    requires
                                        l < h,
                                        h <= size,
                                        size <= 256,
                                ;
                            }
                            if k + l * size < mask.len() {
                                mask.set(k + l * size, None);
                            }
                            k = k + 1;
                            proof {
                                assert(mask@ =~= clear_run(row_before, n + l * s, k - n));
                            }
                        }
                        proof {
                            assert(mask@ =~= clear_rect(mask_before, n as int, w as int, s, l + 1));
                        }
                        l = l + 1;
                    }
                    proof {
                        let rest = mask_before.subrange(n as int, mask_before.len() as int);
                        assert(self.scan(d, c as int, mask_before, n as int, i as int, j as int) == seq![quad] + self.scan(
                            d,
                            c as int,
                            mask@,
                            n + w,
                            i + w,
                            j as int,
                        ));
                        assert(quads@ == quads_before.push(quad));
                        assert(quads_before + (seq![quad] + self.scan(d, c as int, mask@, n + w, i + w, j as int))
                            =~= quads@ + self.scan(d, c as int, mask@, n + w, i + w, j as int));
                    }
                    i = i + w;
                    n = n + w;
                }
            }
            proof {
                assert(self.scan(d, c as int, mask@, n as int, i as int, j as int) == self.scan(
                    d,
                    c as int,
                    mask@,
                    n as int,
                    0,
                    j + 1,
                ));
            }
            j = j + 1;
        }
        proof {
            assert(self.scan(d, c as int, mask@, n as int, 0, j as int) == Seq::<Quad>::empty());
            assert(quads@ =~= quads@ + Seq::<Quad>::empty());
        }
    }

    /// The quads of a greedy mesh of the octree: for each axis and each
    /// plane across it, from the one before the first cell to the one after
    /// the last, the faces between a filled and an empty cell merged into
    /// rectangles, as [Mesher::mesh_quads] lists them.
    pub fn generate_quads_array(&self) -> (quads: Vec<Quad>)
        requires
            self.wf(),
        ensures
            quads@ == self.mesh_quads(),
            forall|k: int| 0 <= k < quads@.len() ==> self.is_mesh_quad(#[trigger] quads@[k]),
    {
        proof {
            crate::octree::octant_dimensions::lemma_pow2_monotone(self.octree.height as nat, 8);
            crate::octree::octant_dimensions::lemma_pow2_monotone(0, self.octree.height as nat);
            lemma2_to64();
        }
        let mut quads: Vec<Quad> = Vec::new();
        let size_iter = self.size as i32;
        let mut a: usize = 0;
        while a < 3
            invariant
                self.wf(),
                1 <= self.size <= 256,
                size_iter == self.size,
                a <= 3,
                forall|k: int| 0 <= k < quads@.len() ==> self.is_mesh_quad(#[trigger] quads@[k]),
                quads@ == self.axes_quads(a as nat),
            decreases 3 - a,
        {
            let d = if a == 0 {
                Axis::X
            } else if a == 1 {
                Axis::Y
            } else {
                Axis::Z
            };
            let ghost before = quads@;
            let mut cursor: i32 = -1;
            while cursor < size_iter
                invariant
                    self.wf(),
                    1 <= self.size <= 256,
                    size_iter == self.size,
                    -1 <= cursor <= size_iter,
                    forall|k: int| 0 <= k < quads@.len() ==> self.is_mesh_quad(#[trigger] quads@[k]),
                    quads@ == before + self.planes(d, (cursor + 1) as nat),
                decreases size_iter - cursor,
            {
                let mut mask = self.fill_mask(d, cursor);
                proof {
                    assert forall|m: int| 0 <= m < mask@.len() && (#[trigger] mask@[m]) is Some implies mask@[m]
                        == self.mask_cell(d, cursor as int, m % (self.size as int), m / (self.size as int)) by {}
                    assert(mask@ =~= Seq::new(
                        (self.size * self.size) as nat,
                        |n: int| self.mask_cell(d, cursor as int, n % (self.size as int), n / (self.size as int)),
                    ));
                }
                let ghost quads_before = quads@;
                self.mesh_mask(&mut mask, d, cursor, &mut quads);
                proof {
                    assert(self.planes(d, (cursor + 2) as nat) == self.planes(d, (cursor + 1) as nat) + self.plane_quads(d, cursor as int));
                    assert(quads@ =~= before + self.planes(d, (cursor + 2) as nat));
                }
                cursor = cursor + 1;
            }
            proof {
                assert(d == axis_of(a as int));
                assert(self.axes_quads((a + 1) as nat) == self.axes_quads(a as nat) + self.planes(d, (self.size + 1) as nat));
            }
            a = a + 1;
        }
        proof {
            reveal_with_fuel(Mesher::axes_quads, 4);
            assert(self.axes_quads(0) == Seq::<Quad>::empty());
            assert(self.axes_quads(3) =~= self.mesh_quads());
        }
        quads
    }

}

/// The axis numbered `a`: X, Y, then Z.
pub open spec fn axis_of(a: int) -> Axis {
    if a == 0 {
        Axis::X
    } else if a == 1 {
        Axis::Y
    } else {
        Axis::Z
    }
}

/// `mask` with the `w` entries from `start` on cleared.
pub open spec fn clear_run(mask: Seq<MaskCell>, start: int, w: int) -> Seq<MaskCell> {
    Seq::new(mask.len(), |m: int| if start <= m < start + w { None } else { mask[m] })
}

/// `mask` with `h` runs of `w` entries cleared, the first from `n` on and
/// each further one a row of `size` entries later.
pub open spec fn clear_rect(mask: Seq<MaskCell>, n: int, w: int, size: int, h: int) -> Seq<MaskCell>
    decreases h,
{
    if h <= 0 {
        mask
    } else {
        clear_run(clear_rect(mask, n, w, size, h - 1), n + (h - 1) * size, w)
    }
}

pub proof fn lemma_clear_rect_len(mask: Seq<MaskCell>, n: int, w: int, size: int, h: int)
    ensures
        clear_rect(mask, n, w, size, h).len() == mask.len(),
    decreases h,
{
    if h > 0 {
        lemma_clear_rect_len(mask, n, w, size, h - 1);
    }
}

/// A run is never longer than the mask.
pub proof fn lemma_run_len_le_len(mask: Seq<MaskCell>, a: int)
    ensures
        run_len(mask, a) <= mask.len(),
    decreases a,
{
    if a > 0 && mask.len() > 0 {
        lemma_run_len_le_len(mask, a - 1);
    }
}

/// A mask that is not empty starts with a run of at least one entry.
pub proof fn lemma_run_len_positive(mask: Seq<MaskCell>, size: int)
    requires
        mask.len() >= 1,
        size >= 1,
    ensures
        run_len(mask, size) >= 1,
{
    assert(run_len(mask, 0) == 0);
    assert(run_len(mask, 1) == 1);
    lemma_run_len_prefix(mask, 1, size);
}

/// A longer cap only counts further.
pub proof fn lemma_run_len_prefix(mask: Seq<MaskCell>, a: int, b: int)
    requires
        0 <= a <= b,
    ensures
        run_len(mask, a) <= run_len(mask, b),
        run_len(mask, b) <= b,
        run_len(mask, a) <= a,
    decreases b - a,
{
    if a < b {
        lemma_run_len_prefix(mask, a, b - 1);
    } else {
        lemma_run_len_bound(mask, a);
    }
}

pub proof fn lemma_run_len_bound(mask: Seq<MaskCell>, a: int)
    ensures
        a >= 0 ==> 0 <= run_len(mask, a) <= a,
    decreases a,
{
    if a > 0 {
        lemma_run_len_bound(mask, a - 1);
    }
}

/// The counted leading entries all equal the first one.
pub proof fn lemma_run_len_elements(mask: Seq<MaskCell>, size: int, c: int)
    requires
        0 <= c < run_len(mask, size),
    ensures
        c < mask.len(),
        mask[c] == mask[0],
    decreases size,
{
    lemma_run_len_bound(mask, size - 1);
    if run_len(mask, size) == size && run_len(mask, size - 1) == size - 1 && c == size - 1 {
    } else if size > 0 {
        lemma_run_len_elements(mask, size - 1, c);
    }
}

pub proof fn lemma_rows_len_prefix(mask: Seq<MaskCell>, size: int, w: int, a: int, b: int)
    requires
        0 <= a <= b,
    ensures
        rows_len(mask, size, w, a) <= rows_len(mask, size, w, b),
        rows_len(mask, size, w, b) <= b,
    decreases b - a,
{
    if a < b {
        lemma_rows_len_prefix(mask, size, w, a, b - 1);
    } else {
        lemma_rows_len_bound(mask, size, w, a);
    }
}

pub proof fn lemma_rows_len_bound(mask: Seq<MaskCell>, size: int, w: int, a: int)
    ensures
        a >= 0 ==> 0 <= rows_len(mask, size, w, a) <= a,
    decreases a,
{
    if a > 0 {
        lemma_rows_len_bound(mask, size, w, a - 1);
    }
}

/// A run shorter than its cap stops at the end of the mask or at an entry
/// that differs from the first.
pub proof fn lemma_run_len_stop(mask: Seq<MaskCell>, a: int)
    requires
        a >= 0,
        run_len(mask, a) < a,
        mask.len() >= 1,
    ensures
        run_len(mask, a) >= mask.len() || mask[run_len(mask, a)] != mask[0],
    decreases a,
{
    lemma_run_len_bound(mask, a - 1);
    if run_len(mask, a - 1) < a - 1 {
        lemma_run_len_stop(mask, a - 1);
    }
}

/// Each counted row starts inside the mask and matches.
pub proof fn lemma_rows_len_rows(mask: Seq<MaskCell>, size: int, w: int, a: int, r: int)
    requires
        0 <= r < rows_len(mask, size, w, a),
    ensures
        r * size < mask.len(),
        row_matches(mask, size, w, r),
    decreases a,
{
    lemma_rows_len_bound(mask, size, w, a - 1);
    if rows_len(mask, size, w, a) == a && rows_len(mask, size, w, a - 1) == a - 1 && r == a - 1 {
    } else if a > 0 {
        lemma_rows_len_rows(mask, size, w, a - 1, r);
    }
}

/// Counting rows below its cap stops at a row outside the mask or one that does not match.
pub proof fn lemma_rows_len_stop(mask: Seq<MaskCell>, size: int, w: int, a: int)
    requires
        a >= 0,
        rows_len(mask, size, w, a) < a,
    ensures
        rows_len(mask, size, w, a) * size >= mask.len() || !row_matches(mask, size, w, rows_len(mask, size, w, a)),
    decreases a,
{
    lemma_rows_len_bound(mask, size, w, a - 1);
    if rows_len(mask, size, w, a - 1) < a - 1 {
        lemma_rows_len_stop(mask, size, w, a - 1);
    }
}

/// The rectangle that starts a mask: its width is the number of leading
/// entries equal to the first, up to the row length, and its height the
/// number of leading rows whose first `w` entries all equal the first entry,
/// up to the row count. Every entry under the rectangle equals the first, and
/// neither side could grow by one.
pub proof fn law_quad_dimensions(mask: Seq<MaskCell>, size: int)
    requires
        size >= 1,
        mask.len() >= 1,
    ensures
        ({
            let w = run_len(mask, size);
            let h = rows_len(mask, size, w, size);
            &&& 1 <= w <= size
            &&& w <= mask.len()
            &&& forall|c: int| 0 <= c < w ==> #[trigger] mask[c] == mask[0]
            &&& w < size ==> (w == mask.len() || mask[w] != mask[0])
            &&& 1 <= h <= size
            &&& (h - 1) * size < mask.len()
            &&& forall|r: int| 0 <= r < h ==> #[trigger] row_matches(mask, size, w, r)
            &&& forall|r: int, c: int| 0 <= r < h && 0 <= c < w && r * size + c < mask.len()
                ==> #[trigger] mask[r * size + c] == mask[0]
            &&& h < size ==> (h * size >= mask.len()
                || exists|c: int| 0 <= c < w && h * size + c < mask.len() && #[trigger] mask[h * size + c] != mask[0])
        }),
{
    let w = run_len(mask, size);
    lemma_run_len_positive(mask, size);
    lemma_run_len_prefix(mask, size, size);
    lemma_run_len_le_len(mask, size);
    assert forall|c: int| 0 <= c < w implies #[trigger] mask[c] == mask[0] by {
        lemma_run_len_elements(mask, size, c);
    }
    if w < size {
        lemma_run_len_stop(mask, size);
    }
    assert(row_matches(mask, size, w, 0)) by {
        assert forall|c: int| 0 <= c < w && 0 * size + c < mask.len() implies #[trigger] mask[0 * size + c] == mask[0] by {
            assert(0 * size + c == c);
        }
    }
    assert(rows_len(mask, size, w, 0) == 0);
    assert(rows_len(mask, size, w, 1) == 1);
    lemma_rows_len_prefix(mask, size, w, 1, size);
    let h = rows_len(mask, size, w, size);
    lemma_rows_len_rows(mask, size, w, size, h - 1);
    assert forall|r: int| 0 <= r < h implies #[trigger] row_matches(mask, size, w, r) by {
        lemma_rows_len_rows(mask, size, w, size, r);
    }
    assert forall|r: int, c: int| 0 <= r < h && 0 <= c < w && r * size + c < mask.len()
        implies #[trigger] mask[r * size + c] == mask[0] by {
        lemma_rows_len_rows(mask, size, w, size, r);
    }
    if h < size {
        lemma_rows_len_stop(mask, size, w, size);
        if h * size < mask.len() {
            assert(!row_matches(mask, size, w, h));
            let c = choose|c: int| 0 <= c < w && h * size + c < mask.len() && #[trigger] mask[h * size + c] != mask[0];
            assert(mask[h * size + c] != mask[0]);
        }
    }
}

} // verus!
