//! The mesh: vertices, normals and triangular faces, and how a mesh file is
//! read into them.

use crate::err::ErrorKind;
use crate::text::{
    corner_of, index_of_byte, is_numeral, leading_tokens, lines_from, lines_of, numeral,
    read_corner, split_tokens, tokens, LINE_FEED,
};
use std::path::PathBuf;
use vstd::prelude::*;
use vstd::slice::{slice_subrange, slice_to_vec};

verus! {

/// Three components of one kind: a position or a direction in space.
#[derive(Clone, Copy, Debug)]
pub struct Vec3<T> {
    pub x: T,
    pub y: T,
    pub z: T,
}

impl<T> Vec3<T> {
    /// The vector with the components `x`, `y` and `z`.
    pub fn from_vals(x: T, y: T, z: T) -> (v: Vec3<T>)
        ensures
            v == (Vec3 { x, y, z }),
    {
        Vec3 { x, y, z }
    }

    /// Replaces component `idx` by `val`; the vector has no component beyond
    /// the third, and is then left as it is.
    pub fn set_elem(&mut self, idx: u32, val: T)
        ensures
            idx == 0 ==> *final(self) == (Vec3 { x: val, y: old(self).y, z: old(self).z }),
            idx == 1 ==> *final(self) == (Vec3 { x: old(self).x, y: val, z: old(self).z }),
            idx == 2 ==> *final(self) == (Vec3 { x: old(self).x, y: old(self).y, z: val }),
            idx > 2 ==> *final(self) == *old(self),
    {
        if idx == 0 {
            self.x = val;
        } else if idx == 1 {
            self.y = val;
        } else if idx == 2 {
            self.z = val;
        }
    }

    /// Component `n`, if the vector has one.
    pub fn get(&self, n: usize) -> (c: Option<&T>)
        ensures
            n == 0 ==> c == Some(&self.x),
            n == 1 ==> c == Some(&self.y),
            n == 2 ==> c == Some(&self.z),
            n > 2 ==> c is None,
    {
        if n == 0 {
            Some(&self.x)
        } else if n == 1 {
            Some(&self.y)
        } else if n == 2 {
            Some(&self.z)
        } else {
            None
        }
    }
}

impl<T: Default> Vec3<T> {
    /// The vector whose components are the default of their kind, which for
    /// a number is zero.
    pub fn new() -> (v: Vec3<T>)
        ensures
            call_ensures(T::default, (), v.x),
            call_ensures(T::default, (), v.y),
            call_ensures(T::default, (), v.z),
    {
        Vec3 { x: T::default(), y: T::default(), z: T::default() }
    }
}

impl<T: Copy> Vec3<T> {
    /// The vector whose three components are `val`.
    pub fn from_val(val: T) -> (v: Vec3<T>)
        ensures
            v == (Vec3 { x: val, y: val, z: val }),
    {
        Vec3 { x: val, y: val, z: val }
    }
}

impl Vec3<Vec<u8>> {
    /// The three numerals of a point as they were written.
    pub open spec fn text(&self) -> Seq<Seq<u8>> {
        seq![self.x@, self.y@, self.z@]
    }
}

/// A triangle: for each of its three corners the position of a vertex and the
/// position of a normal in the sequences of the mesh, counted from zero.
#[derive(Clone, Copy, Debug, PartialEq, Eq)]
pub struct Face {
    pub v: [usize; 3],
    pub n: [usize; 3],
}

impl View for Face {
    type V = Seq<(usize, usize)>;

    /// The corners of the face: the vertex and the normal of each.
    open spec fn view(&self) -> Seq<(usize, usize)> {
        seq![(self.v[0], self.n[0]), (self.v[1], self.n[1]), (self.v[2], self.n[2])]
    }
}

/// Whether a corner names a vertex among `vertices` and a normal among
/// `normals`.
pub open spec fn corner_fits(corner: (usize, usize), vertices: nat, normals: nat) -> bool {
    corner.0 < vertices && corner.1 < normals
}

/// Whether every corner of a face fits.
pub open spec fn face_fits(face: Seq<(usize, usize)>, vertices: nat, normals: nat) -> bool {
    forall|k: int| 0 <= k < face.len() ==> corner_fits(#[trigger] face[k], vertices, normals)
}

/// Whether `at` is the first of `faces` that does not fit.
pub open spec fn first_misfit(
    faces: Seq<Seq<(usize, usize)>>,
    vertices: nat,
    normals: nat,
    at: int,
) -> bool {
    &&& 0 <= at < faces.len()
    &&& !face_fits(faces[at], vertices, normals)
    &&& forall|i: int| 0 <= i < at ==> face_fits(#[trigger] faces[i], vertices, normals)
}

/// The corners of each face of a sequence.
pub open spec fn shapes(faces: Seq<Face>) -> Seq<Seq<(usize, usize)>> {
    faces.map_values(|f: Face| f@)
}

/// The numerals of each point of a sequence.
pub open spec fn texts(points: Seq<Vec3<Vec<u8>>>) -> Seq<Seq<Seq<u8>>> {
    points.map_values(|p: Vec3<Vec<u8>>| p.text())
}

/// A mesh: vertex positions, vertex normals, and the faces that index into
/// both.
pub struct Obj<T> {
    pub vertices: Vec<Vec3<T>>,
    pub normals: Vec<Vec3<T>>,
    pub faces: Vec<Face>,
}

impl<T> Obj<T> {
    /// Every face names vertices and normals that the mesh holds.
    pub open spec fn well_formed(&self) -> bool {
        forall|i: int|
            0 <= i < self.faces@.len() ==> face_fits(
                #[trigger] shapes(self.faces@)[i],
                self.vertices@.len(),
                self.normals@.len(),
            )
    }

    /// Looks for a face that names a vertex or a normal that the mesh does not
    /// hold, and reports the first.
    pub fn check(&self) -> (r: Result<(), ErrorKind>)
        ensures
            match r {
                Ok(_) => self.well_formed(),
                Err(ErrorKind::IndexOutOfRange { face }) => first_misfit(
                    shapes(self.faces@),
                    self.vertices@.len(),
                    self.normals@.len(),
                    face as int,
                ),
                Err(_) => false,
            },
    {
        let vertices = self.vertices.len();
        let normals = self.normals.len();
        let mut i: usize = 0;
        while i < self.faces.len()
            invariant
                0 <= i <= self.faces@.len(),
                vertices == self.vertices@.len(),
                normals == self.normals@.len(),
                forall|j: int|
                    0 <= j < i ==> face_fits(
                        #[trigger] shapes(self.faces@)[j],
                        vertices as nat,
                        normals as nat,
                    ),
            decreases self.faces@.len() - i,
        {
            let face = &self.faces[i];
            let fits = face.v[0] < vertices && face.v[1] < vertices && face.v[2] < vertices
                && face.n[0] < normals && face.n[1] < normals && face.n[2] < normals;
            proof {
                let shape = shapes(self.faces@)[i as int];
                assert(shape == face@);
                if fits {
                    assert(face_fits(shape, vertices as nat, normals as nat));
                } else {
                    assert(!corner_fits(shape[0], vertices as nat, normals as nat) || !corner_fits(
                        shape[1],
                        vertices as nat,
                        normals as nat,
                    ) || !corner_fits(shape[2], vertices as nat, normals as nat));
                }
            }
            if !fits {
                return Err(ErrorKind::IndexOutOfRange { face: i });
            }
            i += 1;
        }
        Ok(())
    }
}

/// What the first token of a line makes of it.
#[derive(Clone, Copy, Debug, PartialEq, Eq, Structural)]
pub enum LineKind {
    /// `v`: a vertex position.
    Vertex,
    /// `vn`: a vertex normal.
    Normal,
    /// `f`: a face.
    Face,
    /// Any other first token: the line is passed over.
    Other,
    /// The line has no token.
    Blank,
}

/// The token `v`.
pub open spec fn word_vertex() -> Seq<u8> {
    seq![0x76u8]
}

/// The token `vn`.
pub open spec fn word_normal() -> Seq<u8> {
    seq![0x76u8, 0x6eu8]
}

/// The token `f`.
pub open spec fn word_face() -> Seq<u8> {
    seq![0x66u8]
}

/// The kind of a line.
pub open spec fn kind_of(line: Seq<u8>) -> LineKind {
    let t = tokens(line);
    if t.len() == 0 {
        LineKind::Blank
    } else if t[0] == word_vertex() {
        LineKind::Vertex
    } else if t[0] == word_normal() {
        LineKind::Normal
    } else if t[0] == word_face() {
        LineKind::Face
    } else {
        LineKind::Other
    }
}

/// The three numerals after the first token of a line, if it has them.
pub open spec fn point_of(line: Seq<u8>) -> Option<Seq<Seq<u8>>> {
    let t = tokens(line);
    if t.len() >= 4 && is_numeral(t[1]) && is_numeral(t[2]) && is_numeral(t[3]) {
        Some(t.subrange(1, 4))
    } else {
        None
    }
}

/// The three corners after the first token of a line, if it has them.
pub open spec fn face_of(line: Seq<u8>) -> Option<Seq<(usize, usize)>> {
    let t = tokens(line);
    if t.len() >= 4 && corner_of(t[1]) is Some && corner_of(t[2]) is Some && corner_of(
        t[3],
    ) is Some {
        Some(seq![corner_of(t[1])->0, corner_of(t[2])->0, corner_of(t[3])->0])
    } else {
        None
    }
}

/// A line that is no record: one without a token, a vertex or a normal
/// without three numerals, a face without three corners.
pub open spec fn malformed(line: Seq<u8>) -> bool {
    match kind_of(line) {
        LineKind::Blank => true,
        LineKind::Vertex | LineKind::Normal => point_of(line) is None,
        LineKind::Face => face_of(line) is None,
        LineKind::Other => false,
    }
}

/// Whether `at` is the first of `lines` that is malformed.
pub open spec fn first_malformed(lines: Seq<Seq<u8>>, at: int) -> bool {
    &&& 0 <= at < lines.len()
    &&& malformed(lines[at])
    &&& forall|i: int| 0 <= i < at ==> !malformed(#[trigger] lines[i])
}

/// The points that the lines of `kind` hold, in the order of the lines.
pub open spec fn points_of(lines: Seq<Seq<u8>>, kind: LineKind) -> Seq<Seq<Seq<u8>>>
    decreases lines.len(),
{
    if lines.len() == 0 {
        Seq::empty()
    } else {
        let earlier = points_of(lines.drop_last(), kind);
        if kind_of(lines.last()) == kind && point_of(lines.last()) is Some {
            earlier.push(point_of(lines.last())->0)
        } else {
            earlier
        }
    }
}

/// The faces that the lines hold, in the order of the lines.
pub open spec fn faces_of(lines: Seq<Seq<u8>>) -> Seq<Seq<(usize, usize)>>
    decreases lines.len(),
{
    if lines.len() == 0 {
        Seq::empty()
    } else {
        let earlier = faces_of(lines.drop_last());
        if kind_of(lines.last()) == LineKind::Face && face_of(lines.last()) is Some {
            earlier.push(face_of(lines.last())->0)
        } else {
            earlier
        }
    }
}

/// What reading `data` comes to. A file with a malformed line is refused at
/// its first such line. One without is refused at its first face that names a
/// vertex or a normal beyond those of the file. Any other file gives the mesh
/// of its records.
pub open spec fn loads_as(data: Seq<u8>, r: Result<Obj<Vec<u8>>, ErrorKind>) -> bool {
    let lines = lines_of(data);
    let vertices = points_of(lines, LineKind::Vertex);
    let normals = points_of(lines, LineKind::Normal);
    let faces = faces_of(lines);
    match r {
        Err(ErrorKind::ParseError { line }) => first_malformed(lines, line - 1),
        Err(ErrorKind::IndexOutOfRange { face }) => {
            &&& forall|i: int| 0 <= i < lines.len() ==> !malformed(#[trigger] lines[i])
            &&& first_misfit(faces, vertices.len(), normals.len(), face as int)
        },
        Err(ErrorKind::InvalidConfiguration) => false,
        Ok(obj) => {
            &&& forall|i: int| 0 <= i < lines.len() ==> !malformed(#[trigger] lines[i])
            &&& texts(obj.vertices@) == vertices
            &&& texts(obj.normals@) == normals
            &&& shapes(obj.faces@) == faces
            &&& obj.well_formed()
        },
    }
}

/// Reading the same bytes twice comes to the same: the same refusal, or
/// meshes of the same records.
pub proof fn lemma_load_repeatable(
    data: Seq<u8>,
    first: Result<Obj<Vec<u8>>, ErrorKind>,
    second: Result<Obj<Vec<u8>>, ErrorKind>,
)
    requires
        loads_as(data, first),
        loads_as(data, second),
    ensures
        match (first, second) {
            (Ok(a), Ok(b)) => {
                &&& texts(a.vertices@) == texts(b.vertices@)
                &&& texts(a.normals@) == texts(b.normals@)
                &&& shapes(a.faces@) == shapes(b.faces@)
            },
            (Err(e), Err(f)) => e == f,
            _ => false,
        },
{
    let lines = lines_of(data);
    let vertices = points_of(lines, LineKind::Vertex);
    let normals = points_of(lines, LineKind::Normal);
    let faces = faces_of(lines);
    match (first, second) {
        (Err(ErrorKind::ParseError { line: l }), Err(ErrorKind::ParseError { line: m })) => {
            if l < m {
                assert(!malformed(lines[l - 1]));
            } else if m < l {
                assert(!malformed(lines[m - 1]));
            }
        },
        (Err(ErrorKind::ParseError { line }), _) => {
            assert(!malformed(lines[line - 1]));
        },
        (_, Err(ErrorKind::ParseError { line })) => {
            assert(!malformed(lines[line - 1]));
        },
        (
            Err(ErrorKind::IndexOutOfRange { face: f }),
            Err(ErrorKind::IndexOutOfRange { face: g }),
        ) => {
            if f < g {
                assert(face_fits(faces[f as int], vertices.len(), normals.len()));
            } else if g < f {
                assert(face_fits(faces[g as int], vertices.len(), normals.len()));
            }
        },
        (Err(ErrorKind::IndexOutOfRange { face }), Ok(obj)) => {
            assert(texts(obj.vertices@).len() == obj.vertices@.len());
            assert(texts(obj.normals@).len() == obj.normals@.len());
            assert(shapes(obj.faces@).len() == obj.faces@.len());
            assert(face_fits(shapes(obj.faces@)[face as int], vertices.len(), normals.len()));
        },
        (Ok(obj), Err(ErrorKind::IndexOutOfRange { face })) => {
            assert(texts(obj.vertices@).len() == obj.vertices@.len());
            assert(texts(obj.normals@).len() == obj.normals@.len());
            assert(shapes(obj.faces@).len() == obj.faces@.len());
            assert(face_fits(shapes(obj.faces@)[face as int], vertices.len(), normals.len()));
        },
        _ => {},
    }
}

/// A record of a mesh file.
pub enum Record {
    /// A vertex position.
    Vertex(Vec3<Vec<u8>>),
    /// A vertex normal.
    Normal(Vec3<Vec<u8>>),
    /// A face.
    Face(Face),
    /// A line that is passed over.
    Other,
    /// A line that is no record.
    Malformed,
}

/// Whether `record` is what `line` holds.
pub open spec fn reads_as(line: Seq<u8>, record: Record) -> bool {
    match record {
        Record::Vertex(p) => kind_of(line) == LineKind::Vertex && point_of(line) == Some(p.text()),
        Record::Normal(p) => kind_of(line) == LineKind::Normal && point_of(line) == Some(p.text()),
        Record::Face(f) => kind_of(line) == LineKind::Face && face_of(line) == Some(f@),
        Record::Other => kind_of(line) == LineKind::Other,
        Record::Malformed => malformed(line),
    }
}

/// Reads the three numerals of a line whose first tokens are at `spans`.
fn read_point(line: &[u8], spans: &Vec<(usize, usize)>) -> (r: Option<Vec3<Vec<u8>>>)
    requires
        spans@.len() == leading_tokens(line@, 4).len(),
        forall|k: int|
            0 <= k < spans@.len() ==> {
                &&& (#[trigger] spans@[k]).0 < spans@[k].1 <= line@.len()
                &&& line@.subrange(spans@[k].0 as int, spans@[k].1 as int) == leading_tokens(
                    line@,
                    4,
                )[k]
            },
    ensures
        match r {
            Some(p) => point_of(line@) == Some(p.text()),
            None => point_of(line@) is None,
        },
{
    if spans.len() < 4 {
        return None;
    }
    let x = slice_subrange(line, spans[1].0, spans[1].1);
    let y = slice_subrange(line, spans[2].0, spans[2].1);
    let z = slice_subrange(line, spans[3].0, spans[3].1);
    if numeral(x) && numeral(y) && numeral(z) {
        let p = Vec3 { x: slice_to_vec(x), y: slice_to_vec(y), z: slice_to_vec(z) };
        assert(p.text() =~= tokens(line@).subrange(1, 4));
        Some(p)
    } else {
        None
    }
}

/// Reads the three corners of a line whose first tokens are at `spans`.
fn read_face(line: &[u8], spans: &Vec<(usize, usize)>) -> (r: Option<Face>)
    requires
        spans@.len() == leading_tokens(line@, 4).len(),
        forall|k: int|
            0 <= k < spans@.len() ==> {
                &&& (#[trigger] spans@[k]).0 < spans@[k].1 <= line@.len()
                &&& line@.subrange(spans@[k].0 as int, spans@[k].1 as int) == leading_tokens(
                    line@,
                    4,
                )[k]
            },
    ensures
        match r {
            Some(f) => face_of(line@) == Some(f@),
            None => face_of(line@) is None,
        },
{
    if spans.len() < 4 {
        return None;
    }
    let a = read_corner(slice_subrange(line, spans[1].0, spans[1].1));
    let b = read_corner(slice_subrange(line, spans[2].0, spans[2].1));
    let c = read_corner(slice_subrange(line, spans[3].0, spans[3].1));
    match (a, b, c) {
        (Some(a), Some(b), Some(c)) => {
            let f = Face { v: [a.0, b.0, c.0], n: [a.1, b.1, c.1] };
            assert(f@ =~= seq![a, b, c]);
            Some(f)
        },
        _ => None,
    }
}

/// Reads one line of a mesh file.
pub fn read_record(line: &[u8]) -> (record: Record)
    ensures
        reads_as(line@, record),
{
    let spans = split_tokens(line, 4);
    if spans.len() == 0 {
        return Record::Malformed;
    }
    let first = slice_subrange(line, spans[0].0, spans[0].1);
    assert(first@ == tokens(line@)[0]);
    if first.len() == 1 && first[0] == 0x76 {
        assert(first@ =~= word_vertex());
        match read_point(line, &spans) {
            Some(p) => Record::Vertex(p),
            None => Record::Malformed,
        }
    } else if first.len() == 2 && first[0] == 0x76 && first[1] == 0x6e {
        assert(first@ =~= word_normal());
        assert(word_normal() != word_vertex()) by {
            assert(word_normal().len() != word_vertex().len());
        }
        match read_point(line, &spans) {
            Some(p) => Record::Normal(p),
            None => Record::Malformed,
        }
    } else if first.len() == 1 && first[0] == 0x66 {
        assert(first@ =~= word_face());
        assert(word_face() != word_vertex()) by {
            assert(word_face()[0] != word_vertex()[0]);
        }
        assert(word_face() != word_normal()) by {
            assert(word_face().len() != word_normal().len());
        }
        match read_face(line, &spans) {
            Some(f) => Record::Face(f),
            None => Record::Malformed,
        }
    } else {
        assert(first@ != word_vertex()) by {
            if first@.len() == 1 {
                assert(first@[0] != word_vertex()[0]);
            }
        }
        assert(first@ != word_normal()) by {
            if first@.len() == 2 {
                assert(first@[0] != word_normal()[0] || first@[1] != word_normal()[1]);
            }
        }
        assert(first@ != word_face()) by {
            if first@.len() == 1 {
                assert(first@[0] != word_face()[0]);
            }
        }
        Record::Other
    }
}

/// One more line adds its point to the points of its kind, and nothing else.
proof fn lemma_points_push(done: Seq<Seq<u8>>, line: Seq<u8>, kind: LineKind)
    ensures
        points_of(done.push(line), kind) == if kind_of(line) == kind && point_of(line) is Some {
            points_of(done, kind).push(point_of(line)->0)
        } else {
            points_of(done, kind)
        },
{
    assert(done.push(line).drop_last() =~= done);
}

/// One more line adds its face to the faces, and nothing else.
proof fn lemma_faces_push(done: Seq<Seq<u8>>, line: Seq<u8>)
    ensures
        faces_of(done.push(line)) == if kind_of(line) == LineKind::Face && face_of(line) is Some {
            faces_of(done).push(face_of(line)->0)
        } else {
            faces_of(done)
        },
{
    assert(done.push(line).drop_last() =~= done);
}

/// `std::path::PathBuf`: a path is carried as it is, and nothing is read out
/// of it here.
#[verifier::external_type_specification]
#[verifier::external_body]
pub struct ExPathBuf(PathBuf);

/// The text that a path holds: what it was made from.
pub uninterp spec fn path_text(path: PathBuf) -> Seq<char>;

/// `PathBuf::from` on a string slice: the path that it makes holds the text of
/// the slice.
#[verifier::external_body]
fn path_from(name: &str) -> (path: PathBuf)
    ensures
        path_text(path) == name@,
{
    PathBuf::from(name)
}

/// Reads the mesh file at a path.
pub struct ObjLoader {
    path: PathBuf,
}

impl View for ObjLoader {
    type V = Seq<char>;

    /// The name of the file.
    closed spec fn view(&self) -> Seq<char> {
        path_text(self.path)
    }
}

impl ObjLoader {
    /// A loader for the file named `filename`.
    pub fn new(filename: &str) -> (loader: ObjLoader)
        ensures
            loader@ == filename@,
    {
        ObjLoader { path: path_from(filename) }
    }

    /// The path of the file.
    pub fn path(&self) -> (path: &PathBuf)
        ensures
            path_text(*path) == self@,
    {
        &self.path
    }

    /// Reads the mesh out of `data`, the content of the file.
    pub fn load(&self, data: &[u8]) -> (r: Result<Obj<Vec<u8>>, ErrorKind>)
        ensures
            loads_as(data@, r),
    {
        let n = data.len();
        let mut obj: Obj<Vec<u8>> = Obj {
            vertices: Vec::new(),
            normals: Vec::new(),
            faces: Vec::new(),
        };
        let mut at: usize = 0;
        let mut count: usize = 0;
        let ghost mut done: Seq<Seq<u8>> = Seq::empty();
        assert(texts(obj.vertices@) =~= points_of(done, LineKind::Vertex));
        assert(texts(obj.normals@) =~= points_of(done, LineKind::Normal));
        assert(shapes(obj.faces@) =~= faces_of(done));
        while at < n
            invariant
                n == data@.len(),
                0 <= at <= n,
                count <= at,
                count == done.len(),
                lines_of(data@) == done + lines_from(data@, at as int),
                forall|i: int| 0 <= i < done.len() ==> !malformed(#[trigger] done[i]),
                texts(obj.vertices@) == points_of(done, LineKind::Vertex),
                texts(obj.normals@) == points_of(done, LineKind::Normal),
                shapes(obj.faces@) == faces_of(done),
            decreases n - at,
        {
            let end = index_of_byte(data, at, LINE_FEED);
            let line = slice_subrange(data, at, end);
            let next: usize = if end < n {
                end + 1
            } else {
                n
            };
            proof {
                lemma_points_push(done, line@, LineKind::Vertex);
                lemma_points_push(done, line@, LineKind::Normal);
                lemma_faces_push(done, line@);
                assert(lines_from(data@, at as int) == seq![line@] + lines_from(
                    data@,
                    end as int + 1,
                ));
                assert(lines_from(data@, end as int + 1) == lines_from(data@, next as int));
                assert(done + (seq![line@] + lines_from(data@, next as int)) =~= done.push(line@)
                    + lines_from(data@, next as int));
            }
            match read_record(line) {
                Record::Vertex(p) => {
                    assert(texts(obj.vertices@.push(p)) =~= texts(obj.vertices@).push(p.text()));
                    obj.vertices.push(p);
                },
                Record::Normal(p) => {
                    assert(texts(obj.normals@.push(p)) =~= texts(obj.normals@).push(p.text()));
                    obj.normals.push(p);
                },
                Record::Face(f) => {
                    assert(shapes(obj.faces@.push(f)) =~= shapes(obj.faces@).push(f@));
                    obj.faces.push(f);
                },
                Record::Other => {},
                Record::Malformed => {
                    assert(lines_of(data@)[count as int] == line@);
                    assert forall|i: int| 0 <= i < count implies !malformed(
                        #[trigger] lines_of(data@)[i],
                    ) by {
                        assert(lines_of(data@)[i] == done[i]);
                    }
                    return Err(ErrorKind::ParseError { line: count + 1 });
                },
            }
            proof {
                done = done.push(line@);
            }
            at = next;
            count += 1;
        }
        assert(lines_of(data@) =~= done);
        match obj.check() {
            Ok(_) => Ok(obj),
            Err(e) => Err(e),
        }
    }
}

} // verus!
