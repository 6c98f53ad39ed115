//! Triangle meshes, and reading them from the Wavefront text format.
//!
//! A mesh is read line by line. A line is cut into words at white space, as
//! Unicode defines it.
//! A line whose first word is `v` gives a vertex: its next three words are
//! the coordinates. A line whose first word is `f` gives a face: each further
//! word names a corner by the number of a vertex, counted from one, with
//! whatever follows a slash left aside. A face has three corners. Every
//! other line is passed over.

use crate::text::{
    after_spaces, coordinate, corner, lemma_after_spaces, lemma_scan_range, read_coordinate,
    read_corner, scan, scan_to, skip_spaces, Until,
};
use vstd::prelude::*;
use vstd::slice::slice_subrange;
use vstd::string::StringSliceAdditionalSpecFns;

verus! {

/// A point of a mesh. Its coordinates count millionths.
#[derive(Clone, Copy, Debug, PartialEq, Eq, Structural)]
pub struct Vertex {
    pub x: i32,
    pub y: i32,
    pub z: i32,
}

/// What is wrong with a line.
#[derive(Clone, Copy, Debug, PartialEq, Eq, Structural)]
pub enum Fault {
    /// A vertex with fewer than three coordinates.
    MissingCoordinate,
    /// A coordinate that is no number.
    BadNumber,
    /// A corner of a face that is no number of a vertex.
    BadIndex,
    /// A face with more or fewer than three corners.
    NotATriangle,
}

/// Why a text is not a mesh.
#[derive(Clone, Copy, Debug, PartialEq, Eq, Structural)]
pub enum ParseError {
    /// A line, counted from one, cannot be read.
    Line { line: usize, fault: Fault },
    /// A face, counted from zero, has a corner for which there is no vertex.
    UnknownVertex { face: usize },
}

/// What a line adds to a mesh.
#[derive(Clone, Copy, Debug, PartialEq, Eq, Structural)]
pub enum Entry {
    Vertex(Vertex),
    Face(usize, usize, usize),
    Nothing,
    Bad(Fault),
}

/// A mesh as contracts see it.
pub struct Mesh {
    pub verts: Seq<Vertex>,
    pub faces: Seq<Seq<usize>>,
}

/// Whether `corners` are three, each of them one of the first `count`
/// vertices.
pub open spec fn known(corners: Seq<usize>, count: nat) -> bool {
    corners.len() == 3 && corners[0] < count && corners[1] < count && corners[2] < count
}

impl Mesh {
    /// Whether face `f` has three corners and a vertex for each of them.
    pub open spec fn face_is_known(self, f: int) -> bool {
        known(self.faces[f], self.verts.len())
    }

    /// Whether every face is a triangle of vertices that the mesh has.
    pub open spec fn wf(self) -> bool {
        forall|f: int| 0 <= f < self.faces.len() ==> #[trigger] self.face_is_known(f)
    }

    /// Corner `j` of face `f`.
    pub open spec fn corner(self, f: int, j: int) -> Vertex {
        self.verts[self.faces[f][j] as int]
    }
}

/// The word of `l` that begins at or after `from`: where it begins and where
/// it ends. If there is none, it begins where `l` ends.
pub open spec fn word_at(l: Seq<u8>, from: int) -> (int, int) {
    let begin = after_spaces(l, from);
    (begin, scan(l, begin, Until::Space))
}

/// The coordinate written in the word of `l` at or after `from`, and where
/// that word ends.
pub open spec fn number_at(l: Seq<u8>, from: int) -> Result<(i32, int), Fault> {
    let (begin, end) = word_at(l, from);
    if begin >= l.len() {
        Err(Fault::MissingCoordinate)
    } else {
        match coordinate(l.subrange(begin, end)) {
            None => Err(Fault::BadNumber),
            Some(v) => Ok((v, end)),
        }
    }
}

/// The vertex written in `l` from `from` on.
pub open spec fn vertex_entry(l: Seq<u8>, from: int) -> Entry {
    match number_at(l, from) {
        Err(fault) => Entry::Bad(fault),
        Ok((x, after_x)) => match number_at(l, after_x) {
            Err(fault) => Entry::Bad(fault),
            Ok((y, after_y)) => match number_at(l, after_y) {
                Err(fault) => Entry::Bad(fault),
                Ok((z, _)) => Entry::Vertex(Vertex { x, y, z }),
            },
        },
    }
}

/// The corners named by the words of `l` from `from` on, or `None` if one of
/// those words names none.
pub open spec fn corners(l: Seq<u8>, from: int) -> Option<Seq<usize>>
    decreases l.len() - from,
{
    let (begin, end) = word_at(l, from);
    if from < 0 || begin >= l.len() {
        Some(Seq::empty())
    } else {
        proof {
            lemma_after_spaces(l, from);
            lemma_scan_range(l, begin, Until::Space);
        }
        match corner(l.subrange(begin, end)) {
            None => None,
            Some(c) => match corners(l, end) {
                None => None,
                Some(rest) => Some(seq![c] + rest),
            },
        }
    }
}

/// The face written in `l` from `from` on.
pub open spec fn face_entry(l: Seq<u8>, from: int) -> Entry {
    match corners(l, from) {
        None => Entry::Bad(Fault::BadIndex),
        Some(c) => if c.len() == 3 {
            Entry::Face(c[0], c[1], c[2])
        } else {
            Entry::Bad(Fault::NotATriangle)
        },
    }
}

/// What the line `l` adds to a mesh.
#[verifier::opaque]
pub open spec fn entry_of(l: Seq<u8>) -> Entry {
    let (begin, end) = word_at(l, 0);
    if begin >= l.len() {
        Entry::Nothing
    } else if l.subrange(begin, end) == seq![118u8] {
        vertex_entry(l, end)
    } else if l.subrange(begin, end) == seq![102u8] {
        face_entry(l, end)
    } else {
        Entry::Nothing
    }
}

/// What the lines of `s` from position `pos` on make of the vertices and
/// faces gathered from the `line` lines before: the mesh, or the first line
/// that cannot be read.
pub open spec fn gather(
    s: Seq<u8>,
    pos: int,
    line: nat,
    verts: Seq<Vertex>,
    faces: Seq<Seq<usize>>,
) -> Result<Mesh, ParseError>
    decreases s.len() - pos + 1,
{
    if pos < 0 || pos >= s.len() {
        Ok(Mesh { verts, faces })
    } else {
        let end = scan(s, pos, Until::Newline);
        proof {
            lemma_scan_range(s, pos, Until::Newline);
        }
        match entry_of(s.subrange(pos, end)) {
            Entry::Bad(fault) => Err(
                ParseError::Line { line: #[verifier::truncate] ((line + 1) as usize), fault },
            ),
            Entry::Vertex(v) => gather(s, end + 1, line + 1, verts.push(v), faces),
            Entry::Face(a, b, c) => gather(s, end + 1, line + 1, verts, faces.push(seq![a, b, c])),
            Entry::Nothing => gather(s, end + 1, line + 1, verts, faces),
        }
    }
}

/// All vertices and faces written in the text `s`, or the first line that
/// cannot be read. The faces are not yet held against the vertices.
pub open spec fn gathered(s: Seq<u8>) -> Result<Mesh, ParseError> {
    gather(s, 0, 0, Seq::empty(), Seq::empty())
}

/// Whether `r` is what reading the text `s` gives: the first line that
/// cannot be read; else the first face with a corner for which there is no
/// vertex; else the mesh.
pub open spec fn is_reading_of(r: Result<Mesh, ParseError>, s: Seq<u8>) -> bool {
    match gathered(s) {
        Err(e) => r == Err::<Mesh, ParseError>(e),
        Ok(mesh) => match r {
            Ok(m) => m == mesh && mesh.wf(),
            Err(ParseError::Line { .. }) => false,
            Err(ParseError::UnknownVertex { face }) => {
                &&& 0 <= face < mesh.faces.len()
                &&& !mesh.face_is_known(face as int)
                &&& forall|f: int| 0 <= f < face ==> #[trigger] mesh.face_is_known(f)
            },
        },
    }
}

/// A triangle mesh: vertices, and faces that name three of them each.
pub struct Model {
    verts: Vec<Vertex>,
    faces: Vec<Vec<usize>>,
}

/// The corners of each face in `faces`.
pub open spec fn corner_lists(faces: Seq<Vec<usize>>) -> Seq<Seq<usize>> {
    Seq::new(faces.len(), |i: int| faces[i]@)
}

/// The result `r` as contracts see it.
pub open spec fn reading(r: Result<Model, ParseError>) -> Result<Mesh, ParseError> {
    match r {
        Ok(m) => Ok(m@),
        Err(e) => Err(e),
    }
}

impl View for Model {
    type V = Mesh;

    closed spec fn view(&self) -> Mesh {
        Mesh { verts: self.verts@, faces: corner_lists(self.faces@) }
    }
}

/// A word is not empty: it ends after it begins.
proof fn lemma_word(l: Seq<u8>, from: int)
    requires
        0 <= from <= l.len(),
    ensures
        from <= word_at(l, from).0 <= word_at(l, from).1 <= l.len(),
        word_at(l, from).0 < l.len() ==> word_at(l, from).0 < word_at(l, from).1,
{
    lemma_after_spaces(l, from);
    lemma_scan_range(l, word_at(l, from).0, Until::Space);
}

fn read_number(l: &[u8], from: usize) -> (r: Result<(i32, usize), Fault>)
    requires
        from <= l@.len(),
    ensures
        match r {
            Ok((v, end)) => number_at(l@, from as int) == Ok::<(i32, int), Fault>((v, end as int))
                && end <= l@.len(),
            Err(fault) => number_at(l@, from as int) == Err::<(i32, int), Fault>(fault),
        },
{
    let begin = skip_spaces(l, from);
    if begin >= l.len() {
        return Err(Fault::MissingCoordinate);
    }
    let end = scan_to(l, begin, Until::Space);
    match read_coordinate(slice_subrange(l, begin, end)) {
        None => Err(Fault::BadNumber),
        Some(v) => Ok((v, end)),
    }
}

fn read_vertex(l: &[u8], from: usize) -> (e: Entry)
    requires
        from <= l@.len(),
    ensures
        e == vertex_entry(l@, from as int),
{
    match read_number(l, from) {
        Err(fault) => Entry::Bad(fault),
        Ok((x, after_x)) => match read_number(l, after_x) {
            Err(fault) => Entry::Bad(fault),
            Ok((y, after_y)) => match read_number(l, after_y) {
                Err(fault) => Entry::Bad(fault),
                Ok((z, _)) => Entry::Vertex(Vertex { x, y, z }),
            },
        },
    }
}

/// The corners `found` so far, followed by what is still to come.
spec fn followed(found: Seq<usize>, coming: Option<Seq<usize>>) -> Option<Seq<usize>> {
    match coming {
        None => None,
        Some(rest) => Some(found + rest),
    }
}

fn read_face(l: &[u8], from: usize) -> (e: Entry)
    requires
        from <= l@.len(),
    ensures
        e == face_entry(l@, from as int),
{
    let mut found: Vec<usize> = Vec::new();
    let mut pos: usize = from;
    assert(followed(found@, corners(l@, pos as int)) == corners(l@, from as int)) by {
        match corners(l@, from as int) {
            None => {},
            Some(rest) => {
                assert(found@ + rest =~= rest);
            },
        }
    }
    loop
        invariant
            from <= pos <= l@.len(),
            followed(found@, corners(l@, pos as int)) == corners(l@, from as int),
        decreases l@.len() - pos,
    {
        let begin = skip_spaces(l, pos);
        if begin >= l.len() {
            assert(found@ + Seq::<usize>::empty() =~= found@);
            return if found.len() == 3 {
                Entry::Face(found[0], found[1], found[2])
            } else {
                Entry::Bad(Fault::NotATriangle)
            };
        }
        let end = scan_to(l, begin, Until::Space);
        proof {
            lemma_word(l@, pos as int);
        }
        match read_corner(slice_subrange(l, begin, end)) {
            None => {
                return Entry::Bad(Fault::BadIndex);
            },
            Some(c) => {
                proof {
                    match corners(l@, end as int) {
                        None => {},
                        Some(rest) => {
                            assert(found@ + (seq![c] + rest) =~= found@.push(c) + rest);
                        },
                    }
                }
                found.push(c);
                pos = end;
            },
        }
    }
}

/// Reads what the line `l` adds to a mesh.
fn read_entry(l: &[u8]) -> (e: Entry)
    ensures
        e == entry_of(l@),
{
    reveal(entry_of);
    let begin = skip_spaces(l, 0);
    if begin >= l.len() {
        return Entry::Nothing;
    }
    let end = scan_to(l, begin, Until::Space);
    proof {
        lemma_word(l@, 0);
    }
    let word = slice_subrange(l, begin, end);
    if word.len() == 1 && word[0] == 118 {
        assert(word@ =~= seq![118u8]);
        read_vertex(l, end)
    } else if word.len() == 1 && word[0] == 102 {
        assert(word@ =~= seq![102u8]);
        read_face(l, end)
    } else {
        assert(word@ != seq![118u8] && word@ != seq![102u8]) by {
            if word@.len() == 1 {
                assert(seq![118u8][0] == 118u8 && seq![102u8][0] == 102u8);
            } else {
                assert(seq![118u8].len() == 1 && seq![102u8].len() == 1);
            }
        }
        Entry::Nothing
    }
}

/// The first of the `faces` that has not three corners among the first
/// `count` vertices, or `None` if all have.
fn first_unknown(faces: &Vec<Vec<usize>>, count: usize) -> (r: Option<usize>)
    ensures
        match r {
            None => forall|f: int| 0 <= f < faces.len() ==> known(#[trigger] faces[f]@, count as nat),
            Some(face) => {
                &&& face < faces.len()
                &&& !known(faces[face as int]@, count as nat)
                &&& forall|f: int| 0 <= f < face ==> known(#[trigger] faces[f]@, count as nat)
            },
        },
{
    let mut f: usize = 0;
    while f < faces.len()
        invariant
            0 <= f <= faces.len(),
            forall|g: int| 0 <= g < f ==> known(#[trigger] faces[g]@, count as nat),
        decreases faces.len() - f,
    {
        let face = &faces[f];
        if face.len() != 3 || face[0] >= count || face[1] >= count || face[2] >= count {
            return Some(f);
        }
        f += 1;
    }
    None
}

impl Model {
    #[verifier::type_invariant]
    spec fn well_formed(self) -> bool {
        self@.wf()
    }

    /// Reads a mesh from the text of a Wavefront file.
    pub fn load_obj(text: &str) -> (r: Result<Model, ParseError>)
        ensures
            is_reading_of(reading(r), text.spec_bytes()),
    {
        Model::from_bytes(text.as_bytes())
    }

    /// Reads a mesh from the bytes of a Wavefront file.
    pub fn from_bytes(text: &[u8]) -> (r: Result<Model, ParseError>)
        ensures
            is_reading_of(reading(r), text@),
    {
        let mut verts: Vec<Vertex> = Vec::new();
        let mut faces: Vec<Vec<usize>> = Vec::new();
        let mut pos: usize = 0;
        let mut line: usize = 0;
        assert(corner_lists(faces@) =~= Seq::<Seq<usize>>::empty());
        while pos < text.len()
            invariant
                line <= pos <= text@.len(),
                gathered(text@) == gather(
                    text@,
                    pos as int,
                    line as nat,
                    verts@,
                    corner_lists(faces@),
                ),
            decreases text@.len() - pos,
        {
            let end = scan_to(text, pos, Until::Newline);
            let entry = read_entry(slice_subrange(text, pos, end));
            line += 1;
            match entry {
                Entry::Bad(fault) => {
                    return Err(ParseError::Line { line, fault });
                },
                Entry::Vertex(v) => {
                    verts.push(v);
                },
                Entry::Face(a, b, c) => {
                    let mut face: Vec<usize> = Vec::new();
                    face.push(a);
                    face.push(b);
                    face.push(c);
                    proof {
                        assert(face@ =~= seq![a, b, c]);
                        assert(corner_lists(faces@.push(face)) =~= corner_lists(faces@).push(
                            face@,
                        ));
                    }
                    faces.push(face);
                },
                Entry::Nothing => {},
            }
            if end < text.len() {
                pos = end + 1;
            } else {
                assert(gather(text@, end + 1, line as nat, verts@, corner_lists(faces@)) == gather(
                    text@,
                    end as int,
                    line as nat,
                    verts@,
                    corner_lists(faces@),
                ));
                pos = end;
            }
        }
        match first_unknown(&faces, verts.len()) {
            Some(face) => Err(ParseError::UnknownVertex { face }),
            None => Ok(Model { verts, faces }),
        }
    }

    /// The number of vertices.
    pub fn nverts(&self) -> (n: usize)
        ensures
            n == self@.verts.len(),
            self@.wf(),
    {
        proof {
            use_type_invariant(self);
        }
        self.verts.len()
    }

    /// The number of faces.
    pub fn nfaces(&self) -> (n: usize)
        ensures
            n == self@.faces.len(),
            self@.wf(),
    {
        proof {
            use_type_invariant(self);
        }
        self.faces.len()
    }

    /// Vertex `i`.
    pub fn vert(&self, i: usize) -> (v: Vertex)
        requires
            i < self@.verts.len(),
        ensures
            v == self@.verts[i as int],
    {
        self.verts[i]
    }

    /// The corners of face `i`: three numbers of vertices, counted from zero.
    pub fn face(&self, i: usize) -> (f: &Vec<usize>)
        requires
            i < self@.faces.len(),
        ensures
            f@ == self@.faces[i as int],
            known(f@, self@.verts.len()),
    {
        proof {
            use_type_invariant(self);
            assert(self@.face_is_known(i as int));
        }
        &self.faces[i]
    }
}

} // verus!
