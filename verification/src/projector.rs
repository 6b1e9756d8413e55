//! The projector: which pixels each primitive of a mesh is drawn into, and the
//! byte buffer that the finished colors are written to.

use crate::err::ErrorKind;
use crate::obj::{face_fits, first_misfit, shapes, Obj};
use crate::tiles::{
    clipped, drawn_into, isqrt, lemma_block_ascends, lemma_planned_shape, planned, TileLayout,
};
use vstd::arithmetic::div_mod::lemma_fundamental_div_mod_converse;
use vstd::prelude::*;

verus! {

/// What of the mesh is projected.
#[derive(Clone, Copy, Debug, PartialEq, Eq, Structural)]
pub enum ProjectionType {
    /// One tile per face, colored by the positions of its vertices.
    Face,
    /// One contribution per vertex, placed by its position.
    Vertex,
    /// One contribution per vertex normal, placed by its direction.
    VertexNormal,
    /// One tile per face, colored by its geometric normal.
    FaceNormal,
}

/// Whether `c` is the letter `w` in either case: the same character, or the
/// ASCII capital of it.
pub open spec fn same_letter(c: char, w: char) -> bool {
    c == w || (0x41 <= c as u32 <= 0x5a && c as u32 + 32 == w as u32)
}

/// Whether `token` spells the lower-case `word`, whatever the case of its
/// ASCII letters.
pub open spec fn spells(token: Seq<char>, word: Seq<char>) -> bool {
    &&& token.len() == word.len()
    &&& forall|i: int| 0 <= i < token.len() ==> same_letter(#[trigger] token[i], word[i])
}

/// Tells whether `token` spells `word`.
fn is_word(token: &str, word: &str) -> (b: bool)
    ensures
        b == spells(token@, word@),
{
    let n = word.unicode_len();
    if token.unicode_len() != n {
        return false;
    }
    let mut i: usize = 0;
    while i < n
        invariant
            0 <= i <= n,
            n == word@.len(),
            n == token@.len(),
            forall|j: int| 0 <= j < i ==> same_letter(#[trigger] token@[j], word@[j]),
        decreases n - i,
    {
        let c = token.get_char(i);
        let w = word.get_char(i);
        let cu: u32 = c as u32;
        if !(c == w || (0x41 <= cu && cu <= 0x5a && cu + 32 == w as u32)) {
            assert(!same_letter(token@[i as int], word@[i as int]));
            return false;
        }
        i += 1;
    }
    true
}

impl ProjectionType {
    /// The projection that a mode token names: `face` or `f`, `vertex` or `v`,
    /// `vertex_normal` or `vn`, `face_normal` or `fn`, in any case.
    pub open spec fn of_token(token: Seq<char>) -> Option<ProjectionType> {
        if spells(token, "face"@) || spells(token, "f"@) {
            Some(ProjectionType::Face)
        } else if spells(token, "vertex"@) || spells(token, "v"@) {
            Some(ProjectionType::Vertex)
        } else if spells(token, "vertex_normal"@) || spells(token, "vn"@) {
            Some(ProjectionType::VertexNormal)
        } else if spells(token, "face_normal"@) || spells(token, "fn"@) {
            Some(ProjectionType::FaceNormal)
        } else {
            None
        }
    }

    /// Reads a mode token. A token that names no projection is refused.
    pub fn parse(value: &str) -> (r: Result<ProjectionType, ErrorKind>)
        ensures
            r == match Self::of_token(value@) {
                Some(kind) => Ok::<ProjectionType, ErrorKind>(kind),
                None => Err(ErrorKind::InvalidConfiguration),
            },
    {
        if is_word(value, "face") || is_word(value, "f") {
            Ok(ProjectionType::Face)
        } else if is_word(value, "vertex") || is_word(value, "v") {
            Ok(ProjectionType::Vertex)
        } else if is_word(value, "vertex_normal") || is_word(value, "vn") {
            Ok(ProjectionType::VertexNormal)
        } else if is_word(value, "face_normal") || is_word(value, "fn") {
            Ok(ProjectionType::FaceNormal)
        } else {
            Err(ErrorKind::InvalidConfiguration)
        }
    }

    /// The projection that the mode token `value` names.
    pub fn from(value: &str) -> (kind: ProjectionType)
        requires
            Self::of_token(value@) is Some,
        ensures
            Self::of_token(value@) == Some(kind),
    {
        match Self::parse(value) {
            Ok(kind) => kind,
            Err(_) => unreached(),
        }
    }
}

/// The size of the pixel grid and the kind of projection.
pub struct ProjectorParams {
    /// Pixels across.
    pub width: usize,
    /// Pixels down.
    pub height: usize,
    /// What is projected.
    pub kind: ProjectionType,
}

impl ProjectorParams {
    /// Both dimensions are positive.
    pub open spec fn valid(&self) -> bool {
        0 < self.width && 0 < self.height
    }

    /// Three bytes for each pixel of the grid can be addressed.
    pub open spec fn addressable(&self) -> bool {
        self.width * self.height * 3 <= usize::MAX
    }

    /// Tells whether both dimensions are positive.
    pub fn is_valid(&self) -> (b: bool)
        ensures
            b == self.valid(),
    {
        0 < self.width && 0 < self.height
    }

    /// Tells whether three bytes for each pixel of the grid can be addressed.
    pub fn is_addressable(&self) -> (b: bool)
        ensures
            b == self.addressable(),
    {
        assert(self.width * self.height <= 0xffff_ffff_ffff_ffff * 0xffff_ffff_ffff_ffff)
            by (nonlinear_arith)
            requires
                0 <= self.width <= 0xffff_ffff_ffff_ffff,
                0 <= self.height <= 0xffff_ffff_ffff_ffff,
        ;
        let pixels: u128 = (self.width as u128) * (self.height as u128);
        pixels <= (usize::MAX / 3) as u128
    }
}

/// The column or row that a quantized coordinate names: `q` held to the range
/// from 0 to `extent - 1`.
pub open spec fn clamped(q: int, extent: int) -> int {
    if q < 0 {
        0
    } else if q >= extent {
        extent - 1
    } else {
        q
    }
}

/// The address of the point with the quantized coordinates `(qx, qy)`: its row
/// times the height of the grid, plus its column.
pub open spec fn point_address(qx: int, qy: int, width: int, height: int) -> int {
    clamped(qy, height) * height + clamped(qx, width)
}

/// The points among `cells`, given by their quantized coordinates, that are
/// placed at `pixel`, in ascending order.
pub open spec fn placed_at(cells: Seq<(i64, i64)>, pixel: int, width: int, height: int) -> Seq<
    usize,
>
    decreases cells.len(),
{
    if cells.len() == 0 {
        Seq::empty()
    } else {
        let earlier = placed_at(cells.drop_last(), pixel, width, height);
        if point_address(cells.last().0 as int, cells.last().1 as int, width, height) == pixel {
            earlier.push((cells.len() - 1) as usize)
        } else {
            earlier
        }
    }
}

/// Whether one of the first `upto` of `pixels` is `pixel`.
spec fn among(pixels: Seq<usize>, upto: int, pixel: int) -> bool {
    exists|j: int| 0 <= j < upto && #[trigger] pixels[j] == pixel
}

/// A list of primitives for each of `pixels` pixels, all of them empty.
fn empty_lists(pixels: usize) -> (lists: Vec<Vec<usize>>)
    ensures
        lists@.len() == pixels,
        forall|p: int| 0 <= p < pixels ==> (#[trigger] lists@[p])@ == Seq::<usize>::empty(),
{
    let mut lists: Vec<Vec<usize>> = Vec::new();
    let mut p: usize = 0;
    while p < pixels
        invariant
            0 <= p <= pixels,
            lists@.len() == p,
            forall|q: int| 0 <= q < p ==> (#[trigger] lists@[q])@ == Seq::<usize>::empty(),
        decreases pixels - p,
    {
        lists.push(Vec::new());
        p += 1;
    }
    lists
}

/// The primitives whose colors `pixel` averages, in ascending order. By face
/// and by face normal they are the faces that are drawn into the pixel, none
/// where there is no layout. By vertex and by vertex normal they are the
/// points, given by their quantized coordinates, that are placed at it.
pub open spec fn contributors(
    kind: ProjectionType,
    faces: usize,
    cells: Seq<(i64, i64)>,
    pixel: int,
    width: usize,
    height: usize,
) -> Seq<usize> {
    match kind {
        ProjectionType::Face | ProjectionType::FaceNormal => match planned(faces, width, height) {
            Some(layout) => drawn_into(layout, faces as nat, pixel, width as int, height as int),
            None => Seq::empty(),
        },
        ProjectionType::Vertex | ProjectionType::VertexNormal => placed_at(
            cells,
            pixel,
            width as int,
            height as int,
        ),
    }
}

/// What planning the projection of `obj` with `params` comes to. A grid
/// without pixels, or with more than can be addressed, is refused. On any
/// other grid a mesh with a face that names a vertex or a normal that it does
/// not hold is refused at its first such face. Any other mesh gives, for each
/// pixel in row-major order, its contributors.
pub open spec fn plans_as<T>(
    obj: Obj<T>,
    cells: Seq<(i64, i64)>,
    params: ProjectorParams,
    r: Result<Vec<Vec<usize>>, ErrorKind>,
) -> bool {
    match r {
        Err(ErrorKind::InvalidConfiguration) => !(params.valid() && params.addressable()),
        Err(ErrorKind::IndexOutOfRange { face }) => {
            &&& params.valid() && params.addressable()
            &&& first_misfit(
                shapes(obj.faces@),
                obj.vertices@.len(),
                obj.normals@.len(),
                face as int,
            )
        },
        Err(ErrorKind::ParseError { .. }) => false,
        Ok(lists) => {
            &&& params.valid() && params.addressable()
            &&& obj.well_formed()
            &&& lists@.len() == params.width * params.height
            &&& forall|p: int|
                0 <= p < lists@.len() ==> (#[trigger] lists@[p])@ == contributors(
                    params.kind,
                    obj.faces@.len() as usize,
                    cells,
                    p,
                    params.width,
                    params.height,
                )
        },
    }
}

/// Planning the same projection twice comes to the same: the same refusal,
/// or the same contributors for every pixel.
pub proof fn lemma_plan_repeatable<T>(
    obj: Obj<T>,
    cells: Seq<(i64, i64)>,
    params: ProjectorParams,
    first: Result<Vec<Vec<usize>>, ErrorKind>,
    second: Result<Vec<Vec<usize>>, ErrorKind>,
)
    requires
        plans_as(obj, cells, params, first),
        plans_as(obj, cells, params, second),
    ensures
        match (first, second) {
            (Ok(a), Ok(b)) => {
                &&& a@.len() == b@.len()
                &&& forall|p: int| 0 <= p < a@.len() ==> (#[trigger] a@[p])@ == b@[p]@
            },
            (Err(e), Err(f)) => e == f,
            _ => false,
        },
{
    let faces = shapes(obj.faces@);
    let vertices = obj.vertices@.len();
    let normals = obj.normals@.len();
    match (first, second) {
        (
            Err(ErrorKind::IndexOutOfRange { face: f }),
            Err(ErrorKind::IndexOutOfRange { face: g }),
        ) => {
            if f < g {
                assert(face_fits(faces[f as int], vertices, normals));
            } else if g < f {
                assert(face_fits(faces[g as int], vertices, normals));
            }
        },
        (Err(ErrorKind::IndexOutOfRange { face }), Ok(_)) => {
            assert(face_fits(faces[face as int], vertices, normals));
        },
        (Ok(_), Err(ErrorKind::IndexOutOfRange { face })) => {
            assert(face_fits(faces[face as int], vertices, normals));
        },
        _ => {},
    }
}

/// The bytes of a sequence of colors: red, green and blue of the first pixel,
/// then of the second, and so on.
pub open spec fn emitted(colors: Seq<[u8; 3]>) -> Seq<u8> {
    Seq::new(3 * colors.len(), |k: int| colors[k / 3][k % 3])
}

/// Projects the primitives of a mesh onto a pixel grid. A projector keeps no
/// state between calls.
pub struct Projector {}

/// A projector holds nothing: any two are the same, so that what one call
/// computes from its arguments every other call computes from them too.
pub proof fn lemma_projector_stateless(a: Projector, b: Projector)
    ensures
        a == b,
{
}

/// The colors of a grid of `width` by `height` pixels are written as
/// `width * height * 3` bytes.
pub proof fn lemma_buffer_size(colors: Seq<[u8; 3]>, width: nat, height: nat)
    requires
        colors.len() == width * height,
    ensures
        emitted(colors).len() == width * height * 3,
{
    assert(3 * (width * height) == width * height * 3) by (nonlinear_arith);
}

/// Channel `c` of pixel `i` is written at `3 * i + c`.
pub proof fn lemma_emitted_layout(colors: Seq<[u8; 3]>, i: int, c: int)
    requires
        0 <= i < colors.len(),
        0 <= c < 3,
    ensures
        emitted(colors)[3 * i + c] == colors[i][c],
{
    lemma_fundamental_div_mod_converse(3 * i + c, 3, i, c);
}

impl Projector {
    /// Makes a projector.
    pub fn new() -> (p: Projector)
        ensures
            p == (Projector {  }),
    {
        Projector {  }
    }

    /// Decides whether `obj` can be projected with `params`, and lays out the
    /// tiles of its faces if it can. A grid without pixels, or with more than
    /// can be addressed, is refused; then a mesh with a face that names a
    /// vertex or a normal that it does not hold, at the first such face.
    pub fn prepare<T>(&self, obj: &Obj<T>, params: &ProjectorParams) -> (r: Result<
        Option<TileLayout>,
        ErrorKind,
    >)
        ensures
            match r {
                Err(ErrorKind::InvalidConfiguration) => !(params.valid() && params.addressable()),
                Err(ErrorKind::IndexOutOfRange { face }) => {
                    &&& params.valid() && params.addressable()
                    &&& first_misfit(
                        shapes(obj.faces@),
                        obj.vertices@.len(),
                        obj.normals@.len(),
                        face as int,
                    )
                },
                Err(ErrorKind::ParseError { .. }) => false,
                Ok(layout) => {
                    &&& params.valid() && params.addressable()
                    &&& obj.well_formed()
                    &&& layout == planned(obj.faces@.len() as usize, params.width, params.height)
                    &&& layout matches Some(l) ==> 0 < l.tiles_per_row
                },
            },
    {
        if !params.is_valid() || !params.is_addressable() {
            return Err(ErrorKind::InvalidConfiguration);
        }
        match obj.check() {
            Err(e) => Err(e),
            Ok(_) => Ok(self.tiles(obj.faces.len(), params)),
        }
    }

    /// For each pixel of the grid, in row-major order, the primitives whose
    /// colors it averages, if `obj` can be projected with `params`. By vertex
    /// and by vertex normal `cells` holds the quantized coordinates of the
    /// points in their order; by face and by face normal it is not read.
    pub fn plan<T>(&self, obj: &Obj<T>, cells: &Vec<(i64, i64)>, params: &ProjectorParams) -> (r:
        Result<Vec<Vec<usize>>, ErrorKind>)
        ensures
            plans_as(*obj, cells@, *params, r),
    {
        let layout = match self.prepare(obj, params) {
            Err(e) => {
                return Err(e);
            },
            Ok(layout) => layout,
        };
        match params.kind {
            ProjectionType::Face | ProjectionType::FaceNormal => Ok(
                self.gather_faces(&layout, obj.faces.len(), params),
            ),
            ProjectionType::Vertex | ProjectionType::VertexNormal => Ok(
                self.gather_points(cells, params),
            ),
        }
    }

    /// Lays out the tiles for `count` primitives on the grid of `params`.
    pub fn tiles(&self, count: usize, params: &ProjectorParams) -> (layout: Option<TileLayout>)
        requires
            params.valid(),
        ensures
            layout == planned(count, params.width, params.height),
            layout matches Some(l) ==> 0 < l.tiles_per_row,
    {
        let w = params.width;
        let h = params.height;
        assert(w * h <= 0xffff_ffff_ffff_ffff * 0xffff_ffff_ffff_ffff && count * h
            <= 0xffff_ffff_ffff_ffff * 0xffff_ffff_ffff_ffff) by (nonlinear_arith)
            requires
                0 <= w <= 0xffff_ffff_ffff_ffff,
                0 <= h <= 0xffff_ffff_ffff_ffff,
                0 <= count <= 0xffff_ffff_ffff_ffff,
        ;
        let pixels: u128 = (w as u128) * (h as u128);
        if count as u128 > pixels {
            return Some(TileLayout { tile_width: 1, tile_height: 1, tiles_per_row: w });
        }
        let root: u128 = isqrt(((count as u128) * (h as u128)) / (w as u128));
        proof {
            lemma_planned_shape(count, w, h);
        }
        let rows: usize = root as usize;
        if rows == 0 {
            return None;
        }
        let per_row: usize = count / rows;
        if per_row == 0 {
            return None;
        }
        Some(TileLayout { tile_width: w / per_row, tile_height: h / rows, tiles_per_row: per_row })
    }

    /// The pixels that primitive `i` is drawn into under `layout`, in row-major
    /// order. None of them lies outside the grid.
    pub fn face_pixels(&self, layout: &TileLayout, i: usize, params: &ProjectorParams) -> (pixels:
        Vec<usize>)
        requires
            params.valid(),
            params.addressable(),
            0 < layout.tiles_per_row,
        ensures
            pixels@.len() == layout.block(i as int, params.width as int, params.height as int).len(),
            forall|k: int|
                0 <= k < pixels@.len() ==> #[trigger] pixels@[k] == layout.block(
                    i as int,
                    params.width as int,
                    params.height as int,
                )[k],
            forall|k: int|
                0 <= k < pixels@.len() ==> #[trigger] pixels@[k] < params.width * params.height,
    {
        let w = params.width;
        let h = params.height;
        let mut out: Vec<usize> = Vec::new();
        assert(0 < w * h <= w * h * 3) by (nonlinear_arith)
            requires
                0 < w,
                0 < h,
        ;
        let slot: usize = i % (w * h);
        let row: usize = slot / layout.tiles_per_row;
        assert(layout.tiles_per_row * row <= slot) by (nonlinear_arith)
            requires
                row == slot as int / layout.tiles_per_row as int,
                0 < layout.tiles_per_row,
                0 <= slot,
        ;
        let col: usize = slot - layout.tiles_per_row * row;
        assert(col * layout.tile_width <= 0xffff_ffff_ffff_ffff * 0xffff_ffff_ffff_ffff && row
            * layout.tile_height <= 0xffff_ffff_ffff_ffff * 0xffff_ffff_ffff_ffff)
            by (nonlinear_arith)
            requires
                0 <= col <= 0xffff_ffff_ffff_ffff,
                0 <= row <= 0xffff_ffff_ffff_ffff,
                0 <= layout.tile_width <= 0xffff_ffff_ffff_ffff,
                0 <= layout.tile_height <= 0xffff_ffff_ffff_ffff,
        ;
        let far_x: u128 = (col as u128) * (layout.tile_width as u128);
        let far_y: u128 = (row as u128) * (layout.tile_height as u128);
        let ghost block = layout.block(i as int, w as int, h as int);
        let ghost span_x = clipped(far_x as int, layout.tile_width as int, w as int);
        let ghost span_y = clipped(far_y as int, layout.tile_height as int, h as int);
        if far_x >= w as u128 || far_y >= h as u128 {
            assert(span_y * span_x == 0) by (nonlinear_arith)
                requires
                    span_x == 0 || span_y == 0,
            ;
            return out;
        }
        let x: usize = far_x as usize;
        let y: usize = far_y as usize;
        let cols: usize = if layout.tile_width <= w - x {
            layout.tile_width
        } else {
            w - x
        };
        let rows: usize = if layout.tile_height <= h - y {
            layout.tile_height
        } else {
            h - y
        };
        assert(cols == span_x && rows == span_y);
        let mut j: usize = 0;
        while j < rows
            invariant
                0 <= j <= rows,
                x + cols <= w,
                y + rows <= h,
                w * h <= usize::MAX,
                out@.len() == j * cols,
                forall|k: int|
                    0 <= k < out@.len() ==> #[trigger] out@[k] == (y + k / (cols as int)) * w + x
                        + k % (cols as int),
                forall|k: int| 0 <= k < out@.len() ==> #[trigger] out@[k] < w * h,
            decreases rows - j,
        {
            let mut k: usize = 0;
            while k < cols
                invariant
                    0 <= j < rows,
                    0 <= k <= cols,
                    x + cols <= w,
                    y + rows <= h,
                    w * h <= usize::MAX,
                    out@.len() == j * cols + k,
                    forall|m: int|
                        0 <= m < out@.len() ==> #[trigger] out@[m] == (y + m / (cols as int)) * w
                            + x + m % (cols as int),
                    forall|m: int| 0 <= m < out@.len() ==> #[trigger] out@[m] < w * h,
                decreases cols - k,
            {
                assert((y + j) * w + x + k < w * h) by (nonlinear_arith)
                    requires
                        y + j < h,
                        x + k < w,
                        0 <= y + j,
                        0 <= x + k,
                ;
                proof {
                    lemma_fundamental_div_mod_converse(
                        j * cols + k,
                        cols as int,
                        j as int,
                        k as int,
                    );
                }
                out.push((y + j) * w + x + k);
                k += 1;
            }
            assert(j * cols + cols == (j + 1) * cols) by (nonlinear_arith);
            j += 1;
        }
        out
    }

    /// The pixel that receives the point with the quantized coordinates
    /// `(qx, qy)`: the one at its address, if the grid has a pixel there.
    pub fn point_pixel(&self, qx: i64, qy: i64, params: &ProjectorParams) -> (pixel: Option<usize>)
        requires
            params.valid(),
            params.addressable(),
        ensures
            pixel == ({
                let a = point_address(
                    qx as int,
                    qy as int,
                    params.width as int,
                    params.height as int,
                );
                if a < params.width * params.height {
                    Some(a as usize)
                } else {
                    None
                }
            }),
    {
        let w = params.width;
        let h = params.height;
        assert(0 < w * h <= w * h * 3) by (nonlinear_arith)
            requires
                0 < w,
                0 < h,
        ;
        let px: usize = if qx < 0 {
            0
        } else if qx as u128 >= w as u128 {
            w - 1
        } else {
            qx as usize
        };
        let py: usize = if qy < 0 {
            0
        } else if qy as u128 >= h as u128 {
            h - 1
        } else {
            qy as usize
        };
        assert(py * h <= 0xffff_ffff_ffff_ffff * 0xffff_ffff_ffff_ffff) by (nonlinear_arith)
            requires
                0 <= py <= 0xffff_ffff_ffff_ffff,
                0 <= h <= 0xffff_ffff_ffff_ffff,
        ;
        let address: u128 = (py as u128) * (h as u128) + (px as u128);
        if address < (w * h) as u128 {
            Some(address as usize)
        } else {
            None
        }
    }

    /// For each pixel of the grid, in row-major order, the faces among the
    /// first `count` that are drawn into it, in ascending order. Without a
    /// layout no face is drawn.
    pub fn gather_faces(
        &self,
        layout: &Option<TileLayout>,
        count: usize,
        params: &ProjectorParams,
    ) -> (lists: Vec<Vec<usize>>)
        requires
            params.valid(),
            params.addressable(),
            layout matches Some(l) ==> 0 < l.tiles_per_row,
        ensures
            lists@.len() == params.width * params.height,
            forall|p: int|
                0 <= p < lists@.len() ==> (#[trigger] lists@[p])@ == match layout {
                    Some(l) => drawn_into(
                        *l,
                        count as nat,
                        p,
                        params.width as int,
                        params.height as int,
                    ),
                    None => Seq::<usize>::empty(),
                },
    {
        let w = params.width;
        let h = params.height;
        assert(0 < w * h <= w * h * 3) by (nonlinear_arith)
            requires
                0 < w,
                0 < h,
        ;
        let total: usize = w * h;
        let mut lists = empty_lists(total);
        match layout {
            None => {},
            Some(l) => {
                let mut i: usize = 0;
                while i < count
                    invariant
                        0 <= i <= count,
                        total == w * h,
                        w == params.width,
                        h == params.height,
                        params.valid(),
                        params.addressable(),
                        0 < l.tiles_per_row,
                        lists@.len() == total,
                        forall|p: int|
                            0 <= p < total ==> (#[trigger] lists@[p])@ == drawn_into(
                                *l,
                                i as nat,
                                p,
                                w as int,
                                h as int,
                            ),
                    decreases count - i,
                {
                    let block = self.face_pixels(l, i, params);
                    let ghost base = lists@;
                    proof {
                        assert forall|a: int, b: int| 0 <= a < b < block@.len() implies block@[a]
                            < block@[b] by {
                            lemma_block_ascends(*l, i as int, w as int, h as int, a, b);
                        }
                    }
                    let mut m: usize = 0;
                    while m < block.len()
                        invariant
                            0 <= m <= block@.len(),
                            lists@.len() == total,
                            base.len() == total,
                            forall|k: int| 0 <= k < block@.len() ==> #[trigger] block@[k] < total,
                            forall|a: int, b: int|
                                0 <= a < b < block@.len() ==> block@[a] < block@[b],
                            forall|p: int|
                                0 <= p < total ==> (#[trigger] lists@[p])@ == if among(
                                    block@,
                                    m as int,
                                    p,
                                ) {
                                    base[p]@.push(i)
                                } else {
                                    base[p]@
                                },
                        decreases block@.len() - m,
                    {
                        let pixel = block[m];
                        proof {
                            assert(!among(block@, m as int, pixel as int));
                            assert forall|p: int| 0 <= p < total implies among(
                                block@,
                                m + 1,
                                p,
                            ) == (among(block@, m as int, p) || p == pixel) by {
                                if among(block@, m as int, p) {
                                    let j = choose|j: int| 0 <= j < m && block@[j] == p;
                                    assert(0 <= j < m + 1 && block@[j] == p);
                                }
                                if p == pixel {
                                    assert(block@[m as int] == p);
                                }
                            }
                        }
                        lists[pixel].push(i);
                        m += 1;
                    }
                    proof {
                        let spots = l.block(i as int, w as int, h as int);
                        assert forall|p: int| 0 <= p < total implies among(
                            block@,
                            block@.len() as int,
                            p,
                        ) == spots.contains(p) by {
                            if among(block@, block@.len() as int, p) {
                                let j = choose|j: int| 0 <= j < block@.len() && block@[j] == p;
                                assert(spots[j] == p);
                            }
                            if spots.contains(p) {
                                let j = choose|j: int| 0 <= j < spots.len() && spots[j] == p;
                                assert(block@[j] == p);
                            }
                        }
                    }
                    i += 1;
                }
            },
        }
        lists
    }

    /// For each pixel of the grid, in row-major order, the points among
    /// `cells`, given by their quantized coordinates, that are placed at it, in
    /// ascending order.
    pub fn gather_points(&self, cells: &Vec<(i64, i64)>, params: &ProjectorParams) -> (lists: Vec<
        Vec<usize>,
    >)
        requires
            params.valid(),
            params.addressable(),
        ensures
            lists@.len() == params.width * params.height,
            forall|p: int|
                0 <= p < lists@.len() ==> (#[trigger] lists@[p])@ == placed_at(
                    cells@,
                    p,
                    params.width as int,
                    params.height as int,
                ),
    {
        let w = params.width;
        let h = params.height;
        assert(0 < w * h <= w * h * 3) by (nonlinear_arith)
            requires
                0 < w,
                0 < h,
        ;
        let total: usize = w * h;
        let mut lists = empty_lists(total);
        let mut k: usize = 0;
        while k < cells.len()
            invariant
                0 <= k <= cells@.len(),
                total == w * h,
                w == params.width,
                h == params.height,
                params.valid(),
                params.addressable(),
                lists@.len() == total,
                forall|p: int|
                    0 <= p < total ==> (#[trigger] lists@[p])@ == placed_at(
                        cells@.subrange(0, k as int),
                        p,
                        w as int,
                        h as int,
                    ),
            decreases cells@.len() - k,
        {
            let cell = cells[k];
            proof {
                assert(cells@.subrange(0, k + 1).drop_last() =~= cells@.subrange(0, k as int));
                assert(cells@.subrange(0, k + 1).last() == cell);
            }
            match self.point_pixel(cell.0, cell.1, params) {
                Some(pixel) => {
                    lists[pixel].push(k);
                },
                None => {},
            }
            k += 1;
        }
        assert(cells@.subrange(0, cells@.len() as int) =~= cells@);
        lists
    }

    /// Writes the colors of the pixels of the grid, given in row-major order,
    /// as three bytes each.
    pub fn emit(&self, colors: &Vec<[u8; 3]>) -> (bytes: Vec<u8>)
        ensures
            bytes@ == emitted(colors@),
    {
        let n = colors.len();
        let mut bytes: Vec<u8> = Vec::new();
        let mut i: usize = 0;
        while i < n
            invariant
                0 <= i <= n,
                n == colors@.len(),
                bytes@.len() == 3 * i,
                forall|k: int| 0 <= k < bytes@.len() ==> #[trigger] bytes@[k] == colors@[k / 3][k % 3],
            decreases n - i,
        {
            let c = colors[i];
            bytes.push(c[0]);
            bytes.push(c[1]);
            bytes.push(c[2]);
            i += 1;
        }
        assert(bytes@ =~= emitted(colors@));
        bytes
    }
}

} // verus!
