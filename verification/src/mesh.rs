//! Loading a triangle mesh from text.
//!
//! The text is read line by line. A line whose first word is `v` declares a
//! vertex by three decimal coordinates; a line whose first word is `f`
//! declares a face by the indices of its corners, counted from 1 among the
//! vertices declared so far, or from -1 backwards from the latest. A face
//! with more than three corners is cut into a fan of triangles around its
//! first corner. Every other line is passed over.
//!
//! Coordinates are not converted here: a vertex holds the places in the text
//! where its three coordinates stand, each checked to spell a decimal number.

use vstd::prelude::*;
use crate::text::{
    index_at, is_decimal, lemma_lines, lemma_words, lines, read_index, reads_as_decimal,
    split_lines, split_words, words, Span,
};

verus! {

/// The letter `v`, which begins a vertex line.
pub const VERTEX_LETTER: u8 = 118;

/// The letter `f`, which begins a face line.
pub const FACE_LETTER: u8 = 102;

/// A vertex: where in the text its three coordinates stand.
#[derive(Clone, Copy, Debug, PartialEq, Eq, Structural)]
pub struct Vertex {
    pub x: Span,
    pub y: Span,
    pub z: Span,
}

/// A triangle of the mesh. The order of its corners is that of the face it
/// comes from, and decides which way it faces.
#[derive(Clone, Copy, Debug, PartialEq, Eq, Structural)]
pub struct Triangle {
    pub a: Vertex,
    pub b: Vertex,
    pub c: Vertex,
}

/// Whether a word lies in the text and spells a decimal number.
pub open spec fn spells_decimal(text: Seq<u8>, word: Span) -> bool {
    word.start <= word.end <= text.len() && is_decimal(text, word.start as int, word.end as int)
}

impl Vertex {
    /// Whether the vertex belongs to the text: each coordinate lies in the
    /// text and spells a decimal number.
    pub open spec fn stands_in(self, text: Seq<u8>) -> bool {
        spells_decimal(text, self.x) && spells_decimal(text, self.y) && spells_decimal(
            text,
            self.z,
        )
    }
}

impl Triangle {
    /// Whether all three corners belong to the text.
    pub open spec fn stands_in(self, text: Seq<u8>) -> bool {
        self.a.stands_in(text) && self.b.stands_in(text) && self.c.stands_in(text)
    }
}

/// Why a mesh could not be loaded.
#[derive(Clone, Copy, Debug, PartialEq, Eq, Structural)]
pub enum MeshError {
    /// The source could not be read: here, a vertex without three decimal
    /// coordinates.
    UnreadableSource,
    /// A face names a vertex that does not exist: index 0, an index beyond
    /// the vertices declared so far, or a word that is no index at all.
    MalformedIndex,
    /// The text declares no triangle.
    EmptyMesh,
}

impl MeshError {
    /// The error in words.
    pub open spec fn wording(self) -> Seq<char> {
        match self {
            MeshError::UnreadableSource => "the mesh source cannot be read"@,
            MeshError::MalformedIndex => "a face names a vertex that does not exist"@,
            MeshError::EmptyMesh => "the mesh has no triangles"@,
        }
    }

    /// Says in words what went wrong.
    pub fn message(&self) -> (words: &'static str)
        ensures
            words@ == self.wording(),
    {
        match self {
            MeshError::UnreadableSource => "the mesh source cannot be read",
            MeshError::MalformedIndex => "a face names a vertex that does not exist",
            MeshError::EmptyMesh => "the mesh has no triangles",
        }
    }
}

/// What one line of the text declares.
#[derive(Debug)]
pub enum Record {
    /// A vertex with three decimal coordinates.
    Vertex(Vertex),
    /// A vertex line on which three decimal coordinates cannot be found.
    Unreadable,
    /// A face: one index for each corner, `None` for a word that spells none.
    Face(Vec<Option<i64>>),
    /// Any other line.
    Other,
}

/// The mathematical form of a `Record`.
pub enum Entry {
    Vertex(Vertex),
    Unreadable,
    Face(Seq<Option<i64>>),
    Other,
}

impl View for Record {
    type V = Entry;

    open spec fn view(&self) -> Entry {
        match self {
            Record::Vertex(v) => Entry::Vertex(*v),
            Record::Unreadable => Entry::Unreadable,
            Record::Face(indices) => Entry::Face(indices@),
            Record::Other => Entry::Other,
        }
    }
}

/// The entries that a sequence of records stands for.
pub open spec fn entries(records: Seq<Record>) -> Seq<Entry> {
    Seq::new(records.len(), |i: int| records[i]@)
}

/// Whether a word consists of the one given letter.
pub open spec fn is_letter(text: Seq<u8>, word: Span, letter: u8) -> bool {
    word.end - word.start == 1 && text[word.start as int] == letter
}

/// The indices that the words after the first spell.
pub open spec fn indices_of(text: Seq<u8>, found: Seq<Span>) -> Seq<Option<i64>> {
    Seq::new(
        (found.len() - 1) as nat,
        |j: int| index_at(text, found[j + 1].start as int, found[j + 1].end as int),
    )
}

/// What the line between `from` and `to` declares.
pub open spec fn entry_at(text: Seq<u8>, from: int, to: int) -> Entry {
    let found = words(text, from, to);
    if found.len() == 0 {
        Entry::Other
    } else if is_letter(text, found[0], VERTEX_LETTER) {
        if found.len() >= 4 && is_decimal(text, found[1].start as int, found[1].end as int)
            && is_decimal(text, found[2].start as int, found[2].end as int) && is_decimal(
            text,
            found[3].start as int,
            found[3].end as int,
        ) {
            Entry::Vertex(Vertex { x: found[1], y: found[2], z: found[3] })
        } else {
            Entry::Unreadable
        }
    } else if is_letter(text, found[0], FACE_LETTER) {
        Entry::Face(indices_of(text, found))
    } else {
        Entry::Other
    }
}

/// What the lines of a text declare, line by line.
pub open spec fn entries_of(text: Seq<u8>) -> Seq<Entry> {
    let all = lines(text, 0);
    Seq::new(all.len(), |i: int| entry_at(text, all[i].start as int, all[i].end as int))
}

/// The vertices and triangles gathered from the entries read so far.
pub struct Assembly {
    pub vertices: Seq<Vertex>,
    pub triangles: Seq<Triangle>,
}

/// The position, counted from 0, of the vertex that an index names among
/// `count` vertices: index `i` from 1 to `count` names position `i - 1`,
/// index `-i` from -1 to `-count` names position `count - i`. Anything else
/// names no vertex.
pub open spec fn resolve(index: Option<i64>, count: int) -> Option<int> {
    match index {
        Some(i) => if 1 <= i <= count {
            Some(i - 1)
        } else if -count <= i <= -1 {
            Some(count + i)
        } else {
            None
        },
        None => None,
    }
}

/// Whether every index names a vertex among `count`.
pub open spec fn all_resolve(indices: Seq<Option<i64>>, count: int) -> bool {
    forall|j: int| 0 <= j < indices.len() ==> resolve(#[trigger] indices[j], count) is Some
}

/// The vertices that the indices of a face name, in their order.
pub open spec fn corners(indices: Seq<Option<i64>>, vertices: Seq<Vertex>) -> Seq<Vertex> {
    Seq::new(
        indices.len(),
        |j: int| vertices[resolve(indices[j], vertices.len() as int).unwrap()],
    )
}

/// The fan of triangles around the first corner of a face: for corners
/// `v0, v1, .., vn` the triangles `(v0, v1, v2)`, `(v0, v2, v3)`, and so on
/// to `(v0, vn-1, vn)`. A face with fewer than three corners has none.
pub open spec fn fan(points: Seq<Vertex>) -> Seq<Triangle> {
    Seq::new(
        if points.len() >= 2 {
            (points.len() - 2) as nat
        } else {
            0
        },
        |j: int| Triangle { a: points[0], b: points[j + 1], c: points[j + 2] },
    )
}

/// What one more entry makes of what was gathered, or the error it ends with.
pub open spec fn step(state: Assembly, entry: Entry) -> Result<Assembly, MeshError> {
    match entry {
        Entry::Vertex(v) => Ok(
            Assembly { vertices: state.vertices.push(v), triangles: state.triangles },
        ),
        Entry::Unreadable => Err(MeshError::UnreadableSource),
        Entry::Face(indices) => if all_resolve(indices, state.vertices.len() as int) {
            Ok(
                Assembly {
                    vertices: state.vertices,
                    triangles: state.triangles + fan(corners(indices, state.vertices)),
                },
            )
        } else {
            Err(MeshError::MalformedIndex)
        },
        Entry::Other => Ok(state),
    }
}

/// What the first `n` entries amount to, taken in their order. The first
/// entry that fails decides the error.
pub open spec fn assembly(all: Seq<Entry>, n: nat) -> Result<Assembly, MeshError>
    decreases n,
{
    if n == 0 {
        Ok(Assembly { vertices: Seq::empty(), triangles: Seq::empty() })
    } else {
        match assembly(all, (n - 1) as nat) {
            Ok(state) => step(state, all[n - 1]),
            Err(e) => Err(e),
        }
    }
}

/// The mesh that a sequence of entries declares: its triangles in the order
/// of the faces, each face's fan in its own order. Entries that declare no
/// triangle at all are an empty mesh, which is an error.
pub open spec fn assembled(all: Seq<Entry>) -> Result<Seq<Triangle>, MeshError> {
    match assembly(all, all.len()) {
        Ok(state) => if state.triangles.len() == 0 {
            Err(MeshError::EmptyMesh)
        } else {
            Ok(state.triangles)
        },
        Err(e) => Err(e),
    }
}

/// Whether an outcome with its triangles in a `Vec` is the given one.
pub open spec fn same_outcome(
    got: Result<Vec<Triangle>, MeshError>,
    expected: Result<Seq<Triangle>, MeshError>,
) -> bool {
    match got {
        Ok(triangles) => expected == Ok::<Seq<Triangle>, MeshError>(triangles@),
        Err(e) => expected == Err::<Seq<Triangle>, MeshError>(e),
    }
}

/// An error, once met, stays.
pub proof fn lemma_error_stays(all: Seq<Entry>, i: nat, n: nat)
    requires
        i <= n,
        assembly(all, i) is Err,
    ensures
        assembly(all, n) == assembly(all, i),
    decreases n - i,
{
    if i < n {
        lemma_error_stays(all, i, (n - 1) as nat);
    }
}

/// Reads what the line `line` of the text declares.
pub fn read_record(text: &[u8], line: Span) -> (record: Record)
    requires
        line.start <= line.end <= text@.len(),
    ensures
        record@ == entry_at(text@, line.start as int, line.end as int),
{
    let found = split_words(text, line.start, line.end);
    if found.len() == 0 {
        return Record::Other;
    }
    let head = found[0];
    if head.end - head.start != 1 {
        return Record::Other;
    }
    let letter = text[head.start];
    if letter == VERTEX_LETTER {
        if found.len() >= 4 && reads_as_decimal(text, found[1]) && reads_as_decimal(text, found[2])
            && reads_as_decimal(text, found[3]) {
            Record::Vertex(Vertex { x: found[1], y: found[2], z: found[3] })
        } else {
            Record::Unreadable
        }
    } else if letter == FACE_LETTER {
        let mut indices: Vec<Option<i64>> = Vec::new();
        let mut j: usize = 1;
        while j < found.len()
            invariant
                1 <= j <= found@.len(),
                indices@.len() == j - 1,
                forall|k: int|
                    0 <= k < found@.len() ==> (#[trigger] found@[k]).start < found@[k].end
                        <= text@.len(),
                forall|k: int|
                    0 <= k < j - 1 ==> indices@[k] == index_at(
                        text@,
                        found@[k + 1].start as int,
                        found@[k + 1].end as int,
                    ),
            decreases found@.len() - j,
        {
            indices.push(read_index(text, found[j]));
            j += 1;
        }
        assert(indices@ =~= indices_of(text@, found@));
        Record::Face(indices)
    } else {
        Record::Other
    }
}

/// Reads what each line of the text declares.
pub fn read_records(text: &[u8]) -> (records: Vec<Record>)
    ensures
        entries(records@) == entries_of(text@),
{
    let all = split_lines(text);
    let mut records: Vec<Record> = Vec::new();
    let mut i: usize = 0;
    while i < all.len()
        invariant
            i <= all@.len(),
            all@ == lines(text@, 0),
            forall|k: int|
                0 <= k < all@.len() ==> (#[trigger] all@[k]).start <= all@[k].end <= text@.len(),
            records@.len() == i,
            forall|k: int|
                0 <= k < i ==> (#[trigger] records@[k])@ == entry_at(
                    text@,
                    all@[k].start as int,
                    all@[k].end as int,
                ),
        decreases all@.len() - i,
    {
        records.push(read_record(text, all[i]));
        i += 1;
    }
    assert(entries(records@) =~= entries_of(text@));
    records
}

/// Finds the vertex that an index names among `count`.
fn resolve_index(index: Option<i64>, count: usize) -> (at: Option<usize>)
    ensures
        match at {
            Some(position) => resolve(index, count as int) == Some(position as int),
            None => resolve(index, count as int) is None,
        },
{
    match index {
        Some(i) => {
            let wide = i as i128;
            let limit = count as i128;
            if 1 <= wide && wide <= limit {
                Some((wide - 1) as usize)
            } else if -limit <= wide && wide <= -1 {
                Some((limit + wide) as usize)
            } else {
                None
            }
        },
        None => None,
    }
}

/// Builds the mesh that the records declare: resolves each face against the
/// vertices declared before it and cuts it into its fan of triangles.
///
/// Fails with the error of the first record that fails: `UnreadableSource`
/// for an unreadable vertex, `MalformedIndex` for a face with an index that
/// names no vertex. Fails with `EmptyMesh` if no record fails and no
/// triangle results.
pub fn assemble(records: &[Record]) -> (mesh: Result<Vec<Triangle>, MeshError>)
    ensures
        same_outcome(mesh, assembled(entries(records@))),
{
    let ghost all = entries(records@);
    let mut vertices: Vec<Vertex> = Vec::new();
    let mut triangles: Vec<Triangle> = Vec::new();
    let mut i: usize = 0;
    while i < records.len()
        invariant
            i <= records@.len(),
            all == entries(records@),
            assembly(all, i as nat) == Ok::<Assembly, MeshError>(
                Assembly { vertices: vertices@, triangles: triangles@ },
            ),
        decreases records@.len() - i,
    {
        let ghost before = Assembly { vertices: vertices@, triangles: triangles@ };
        assert(all[i as int] == records@[i as int]@);
        match &records[i] {
            Record::Vertex(v) => {
                vertices.push(*v);
            },
            Record::Unreadable => {
                proof {
                    lemma_error_stays(all, (i + 1) as nat, all.len());
                }
                return Err(MeshError::UnreadableSource);
            },
            Record::Face(indices) => {
                let mut points: Vec<Vertex> = Vec::new();
                let mut j: usize = 0;
                while j < indices.len()
                    invariant
                        j <= indices@.len(),
                        i < records@.len(),
                        all == entries(records@),
                        all[i as int] == Entry::Face(indices@),
                        before == (Assembly { vertices: vertices@, triangles: triangles@ }),
                        assembly(all, i as nat) == Ok::<Assembly, MeshError>(before),
                        points@.len() == j,
                        forall|k: int|
                            0 <= k < j ==> resolve(#[trigger] indices@[k], vertices@.len() as int)
                                is Some,
                        forall|k: int|
                            0 <= k < j ==> points@[k] == vertices@[resolve(
                                indices@[k],
                                vertices@.len() as int,
                            ).unwrap()],
                    decreases indices@.len() - j,
                {
                    match resolve_index(indices[j], vertices.len()) {
                        Some(at) => {
                            points.push(vertices[at]);
                        },
                        None => {
                            proof {
                                assert(!all_resolve(indices@, vertices@.len() as int));
                                lemma_error_stays(all, (i + 1) as nat, all.len());
                            }
                            return Err(MeshError::MalformedIndex);
                        },
                    }
                    j += 1;
                }
                assert(points@ =~= corners(indices@, vertices@));
                let ghost added = fan(points@);
                let count = points.len();
                let mut k: usize = 0;
                while count >= 2 && k < count - 2
                    invariant
                        count == points@.len(),
                        k + 2 <= count || k == 0,
                        added == fan(points@),
                        triangles@ == before.triangles + added.take(k as int),
                    decreases count - k,
                {
                    let piece = Triangle { a: points[0], b: points[k + 1], c: points[k + 2] };
                    assert(added.take(k + 1) =~= added.take(k as int).push(piece));
                    assert(before.triangles + added.take(k as int).push(piece) =~= (
                    before.triangles + added.take(k as int)).push(piece));
                    triangles.push(piece);
                    k += 1;
                }
                assert(added.take(k as int) =~= added);
            },
            Record::Other => {},
        }
        i += 1;
    }
    if triangles.len() == 0 {
        Err(MeshError::EmptyMesh)
    } else {
        Ok(triangles)
    }
}

/// Loads a mesh from the bytes of its text.
///
/// Succeeds with the triangles in the order of the faces that declare them
/// whenever every vertex line has three decimal coordinates, every face
/// index names a vertex declared before the face, and at least one triangle
/// results. Otherwise fails as `assemble` does.
///
/// Every corner of every triangle of a loaded mesh belongs to the text.
pub fn load_from_obj(text: &[u8]) -> (mesh: Result<Vec<Triangle>, MeshError>)
    ensures
        same_outcome(mesh, assembled(entries_of(text@))),
        mesh matches Ok(triangles) ==> forall|i: int|
            0 <= i < triangles@.len() ==> (#[trigger] triangles@[i]).stands_in(text@),
{
    let len = text.len();
    let records = read_records(text);
    let mesh = assemble(records.as_slice());
    proof {
        assert(text@.len() == len);
        lemma_loaded_mesh_stands(text@);
        if mesh is Ok {
            let loaded = mesh->Ok_0@;
            assert(assembled(entries_of(text@)) == Ok::<Seq<Triangle>, MeshError>(loaded));
            assert forall|i: int| 0 <= i < loaded.len() implies (#[trigger] loaded[i]).stands_in(
                text@,
            ) by {
                assert(assembled(entries_of(text@))->Ok_0[i].stands_in(text@));
            }
        }
    }
    mesh
}

/// The vertices that the first `n` entries declare, in their order.
pub open spec fn vertices_in(all: Seq<Entry>, n: nat) -> Seq<Vertex>
    decreases n,
{
    if n == 0 {
        Seq::empty()
    } else {
        match all[n - 1] {
            Entry::Vertex(v) => vertices_in(all, (n - 1) as nat).push(v),
            _ => vertices_in(all, (n - 1) as nat),
        }
    }
}

/// The number of faces among the first `n` entries.
pub open spec fn faces_in(all: Seq<Entry>, n: nat) -> nat
    decreases n,
{
    if n == 0 {
        0
    } else if all[n - 1] is Face {
        faces_in(all, (n - 1) as nat) + 1
    } else {
        faces_in(all, (n - 1) as nat)
    }
}

/// Whether no vertex among the entries is unreadable.
pub open spec fn all_readable(all: Seq<Entry>) -> bool {
    forall|k: int| 0 <= k < all.len() ==> !(#[trigger] all[k] is Unreadable)
}

/// Whether the entries are well formed and every face is a triangle: no
/// vertex is unreadable, and every face has three indices, each of which
/// names a vertex declared before the face.
pub open spec fn is_triangular(all: Seq<Entry>) -> bool {
    forall|k: int|
        0 <= k < all.len() ==> match #[trigger] all[k] {
            Entry::Unreadable => false,
            Entry::Face(indices) => indices.len() == 3 && all_resolve(
                indices,
                vertices_in(all, k as nat).len() as int,
            ),
            _ => true,
        }
}

/// The triangle that a face of three indices declares among the vertices
/// declared before it.
pub open spec fn triangle_of(indices: Seq<Option<i64>>, vertices: Seq<Vertex>) -> Triangle {
    Triangle {
        a: vertices[resolve(indices[0], vertices.len() as int).unwrap()],
        b: vertices[resolve(indices[1], vertices.len() as int).unwrap()],
        c: vertices[resolve(indices[2], vertices.len() as int).unwrap()],
    }
}

/// The count of faces grows with the entries, and by one over each face.
pub proof fn lemma_faces_grow(all: Seq<Entry>, k: nat, n: nat)
    requires
        k <= n,
    ensures
        faces_in(all, k) <= faces_in(all, n),
        k < n && all[k as int] is Face ==> faces_in(all, k) < faces_in(all, n),
    decreases n - k,
{
    if k < n {
        lemma_faces_grow(all, k, (n - 1) as nat);
    }
}

/// The vertices declared so far stay where they are when more follow.
pub proof fn lemma_vertices_stay(all: Seq<Entry>, k: nat, n: nat)
    requires
        k <= n,
    ensures
        vertices_in(all, k).len() <= vertices_in(all, n).len(),
        forall|i: int|
            0 <= i < vertices_in(all, k).len() ==> vertices_in(all, k)[i] == vertices_in(all, n)[i],
    decreases n - k,
{
    if k < n {
        lemma_vertices_stay(all, k, (n - 1) as nat);
    }
}

/// As long as nothing fails, the vertices gathered are the vertices declared.
pub proof fn lemma_vertices_gathered(all: Seq<Entry>, n: nat)
    requires
        assembly(all, n) is Ok,
    ensures
        assembly(all, n).unwrap().vertices == vertices_in(all, n),
    decreases n,
{
    if n > 0 {
        lemma_vertices_gathered(all, (n - 1) as nat);
    }
}

/// Well-formed entries whose faces are all triangles give, up to any point,
/// one triangle for each face so far, in the order of the faces, with the
/// vertices that the face names for corners.
pub proof fn lemma_triangular_so_far(all: Seq<Entry>, n: nat)
    requires
        is_triangular(all),
        n <= all.len(),
    ensures
        assembly(all, n) is Ok,
        assembly(all, n).unwrap().vertices == vertices_in(all, n),
        assembly(all, n).unwrap().triangles.len() == faces_in(all, n),
        forall|k: int|
            0 <= k < n && #[trigger] all[k] is Face ==> assembly(all, n).unwrap().triangles[faces_in(
                all,
                k as nat,
            ) as int] == triangle_of(all[k]->Face_0, vertices_in(all, k as nat)),
    decreases n,
{
    if n > 0 {
        let m = (n - 1) as nat;
        lemma_triangular_so_far(all, m);
        let before = assembly(all, m).unwrap();
        let after = assembly(all, n).unwrap();
        assert(all[m as int] == all[n - 1]);
        match all[m as int] {
            Entry::Face(indices) => {
                let added = fan(corners(indices, before.vertices));
                assert(added.len() == 1);
                assert(added[0] == triangle_of(indices, before.vertices));
                assert(after.triangles == before.triangles + added);
            },
            _ => {},
        }
        assert forall|k: int| 0 <= k < n && #[trigger] all[k] is Face implies after.triangles[faces_in(
            all,
            k as nat,
        ) as int] == triangle_of(all[k]->Face_0, vertices_in(all, k as nat)) by {
            if k < m {
                lemma_faces_grow(all, k as nat, m);
            }
        }
    }
}

/// A well-formed text with `F` faces, all of them triangles, gives exactly
/// `F` triangles, and the corners of each are the vertices that its face names.
pub proof fn lemma_triangular_mesh(all: Seq<Entry>)
    requires
        is_triangular(all),
        faces_in(all, all.len()) > 0,
    ensures
        assembled(all) is Ok,
        assembled(all).unwrap().len() == faces_in(all, all.len()),
        forall|k: int|
            0 <= k < all.len() && #[trigger] all[k] is Face ==> assembled(all).unwrap()[faces_in(
                all,
                k as nat,
            ) as int] == triangle_of(all[k]->Face_0, vertices_in(all, k as nat)),
{
    lemma_triangular_so_far(all, all.len());
}

/// An index from 1 to the number of vertices names the vertex at that place,
/// counted from 1; index 0 and every index beyond the number of vertices
/// name none.
pub proof fn lemma_resolve(index: i64, count: int)
    requires
        0 <= count,
    ensures
        1 <= index <= count ==> resolve(Some(index), count) == Some(index - 1),
        index == 0 || index > count ==> resolve(Some(index), count) is None,
{
}

/// An index that names no vertex among many names none among fewer.
pub proof fn lemma_resolve_among_fewer(index: Option<i64>, fewer: int, count: int)
    requires
        0 <= fewer <= count,
        resolve(index, count) is None,
    ensures
        resolve(index, fewer) is None,
{
}

/// Where no vertex is unreadable, nothing but a face index can fail.
pub proof fn lemma_readable_so_far(all: Seq<Entry>, n: nat)
    requires
        all_readable(all),
        n <= all.len(),
    ensures
        assembly(all, n) is Ok || assembly(all, n) == Err::<Assembly, MeshError>(
            MeshError::MalformedIndex,
        ),
    decreases n,
{
    if n > 0 {
        lemma_readable_so_far(all, (n - 1) as nat);
        assert(!(all[n - 1] is Unreadable));
    }
}

/// A face with an index that names none of the vertices of the text, such
/// as index 0 or an index greater than their number, fails the text with
/// `MalformedIndex`, where no vertex is unreadable.
pub proof fn lemma_bad_index_fails(all: Seq<Entry>, k: int, j: int)
    requires
        all_readable(all),
        0 <= k < all.len(),
        all[k] is Face,
        0 <= j < all[k]->Face_0.len(),
        resolve(all[k]->Face_0[j], vertices_in(all, all.len()).len() as int) is None,
    ensures
        assembled(all) == Err::<Seq<Triangle>, MeshError>(MeshError::MalformedIndex),
{
    let indices = all[k]->Face_0;
    lemma_readable_so_far(all, k as nat);
    lemma_readable_so_far(all, (k + 1) as nat);
    if assembly(all, k as nat) is Ok {
        let before = assembly(all, k as nat).unwrap();
        lemma_vertices_gathered(all, k as nat);
        lemma_vertices_stay(all, k as nat, all.len());
        lemma_resolve_among_fewer(
            indices[j],
            before.vertices.len() as int,
            vertices_in(all, all.len()).len() as int,
        );
        assert(!all_resolve(indices, before.vertices.len() as int));
        assert(assembly(all, (k + 1) as nat) is Err);
    } else {
        lemma_error_stays(all, k as nat, (k + 1) as nat);
    }
    lemma_error_stays(all, (k + 1) as nat, all.len());
}

/// A face of four corners is cut into exactly two triangles, both around
/// its first corner: `(v0, v1, v2)` and `(v0, v2, v3)`.
pub proof fn lemma_quad_is_two(points: Seq<Vertex>)
    requires
        points.len() == 4,
    ensures
        fan(points) == seq![
            Triangle { a: points[0], b: points[1], c: points[2] },
            Triangle { a: points[0], b: points[2], c: points[3] },
        ],
{
    assert(fan(points) =~= seq![
        Triangle { a: points[0], b: points[1], c: points[2] },
        Triangle { a: points[0], b: points[2], c: points[3] },
    ]);
}

/// A face of `n` corners, three or more, is cut into `n - 2` triangles, the
/// one at place `j` with the corners `v0`, `vj+1`, `vj+2`.
pub proof fn lemma_fan(points: Seq<Vertex>, j: int)
    requires
        points.len() >= 3,
        0 <= j < points.len() - 2,
    ensures
        fan(points).len() == points.len() - 2,
        fan(points)[j] == (Triangle { a: points[0], b: points[j + 1], c: points[j + 2] }),
{
}

/// Where nothing fails and no face is declared, no triangle is gathered.
pub proof fn lemma_no_faces_so_far(all: Seq<Entry>, n: nat)
    requires
        all_readable(all),
        forall|k: int| 0 <= k < all.len() ==> !(#[trigger] all[k] is Face),
        n <= all.len(),
    ensures
        assembly(all, n) is Ok,
        assembly(all, n).unwrap().triangles.len() == 0,
    decreases n,
{
    if n > 0 {
        lemma_no_faces_so_far(all, (n - 1) as nat);
        assert(!(all[n - 1] is Face));
        assert(!(all[n - 1] is Unreadable));
    }
}

/// Entries without a face are an empty mesh.
pub proof fn lemma_no_faces_is_empty(all: Seq<Entry>)
    requires
        all_readable(all),
        forall|k: int| 0 <= k < all.len() ==> !(#[trigger] all[k] is Face),
    ensures
        assembled(all) == Err::<Seq<Triangle>, MeshError>(MeshError::EmptyMesh),
{
    lemma_no_faces_so_far(all, all.len());
}

/// A text of no bytes is an empty mesh.
pub proof fn lemma_empty_text_is_empty()
    ensures
        assembled(entries_of(Seq::<u8>::empty())) == Err::<Seq<Triangle>, MeshError>(
            MeshError::EmptyMesh,
        ),
{
    let text = Seq::<u8>::empty();
    let all = entries_of(text);
    assert(lines(text, 0) =~= seq![Span { start: 0, end: 0 }]);
    assert(words(text, 0, 0) =~= Seq::<Span>::empty());
    assert(all =~= seq![Entry::Other]);
    lemma_no_faces_is_empty(all);
}

/// A vertex that a line declares belongs to the text.
pub proof fn lemma_declared_vertex_stands(text: Seq<u8>, from: int, to: int)
    requires
        0 <= from <= to <= text.len(),
        text.len() <= usize::MAX,
        entry_at(text, from, to) is Vertex,
    ensures
        entry_at(text, from, to)->Vertex_0.stands_in(text),
{
    let found = words(text, from, to);
    lemma_words(text, from, to);
    assert(from <= found[1].start < found[1].end <= to);
    assert(from <= found[2].start < found[2].end <= to);
    assert(from <= found[3].start < found[3].end <= to);
}

/// All vertices that a text declares belong to it.
pub proof fn lemma_declared_vertices_stand(text: Seq<u8>)
    requires
        text.len() <= usize::MAX,
    ensures
        forall|k: int|
            0 <= k < entries_of(text).len() && #[trigger] entries_of(text)[k] is Vertex
                ==> entries_of(text)[k]->Vertex_0.stands_in(text),
{
    let all = lines(text, 0);
    lemma_lines(text, 0);
    assert forall|k: int|
        0 <= k < entries_of(text).len() && #[trigger] entries_of(text)[k] is Vertex implies entries_of(
        text,
    )[k]->Vertex_0.stands_in(text) by {
        assert(all[k].start <= all[k].end <= text.len());
        lemma_declared_vertex_stands(text, all[k].start as int, all[k].end as int);
    }
}

/// Where every vertex declared belongs to a text, so does every vertex and
/// every triangle gathered.
pub proof fn lemma_gathered_stands(all: Seq<Entry>, text: Seq<u8>, n: nat)
    requires
        forall|k: int|
            0 <= k < all.len() && #[trigger] all[k] is Vertex ==> all[k]->Vertex_0.stands_in(text),
        n <= all.len(),
        assembly(all, n) is Ok,
    ensures
        forall|i: int|
            0 <= i < assembly(all, n).unwrap().vertices.len() ==> (#[trigger] assembly(
                all,
                n,
            ).unwrap().vertices[i]).stands_in(text),
        forall|i: int|
            0 <= i < assembly(all, n).unwrap().triangles.len() ==> (#[trigger] assembly(
                all,
                n,
            ).unwrap().triangles[i]).stands_in(text),
    decreases n,
{
    if n > 0 {
        let m = (n - 1) as nat;
        lemma_gathered_stands(all, text, m);
        let before = assembly(all, m).unwrap();
        let after = assembly(all, n).unwrap();
        match all[m as int] {
            Entry::Vertex(v) => {
                assert(all[m as int] is Vertex);
                assert forall|i: int| 0 <= i < after.vertices.len() implies (#[trigger] after.vertices[i]).stands_in(
                    text,
                ) by {
                    if i < before.vertices.len() {
                        assert(after.vertices[i] == before.vertices[i]);
                    }
                }
            },
            Entry::Face(indices) => {
                let points = corners(indices, before.vertices);
                let added = fan(points);
                assert forall|j: int| 0 <= j < points.len() implies (#[trigger] points[j]).stands_in(
                    text,
                ) by {
                    assert(resolve(indices[j], before.vertices.len() as int) is Some);
                }
                assert forall|i: int| 0 <= i < after.triangles.len() implies (#[trigger] after.triangles[i]).stands_in(
                    text,
                ) by {
                    if i < before.triangles.len() {
                        assert(after.triangles[i] == before.triangles[i]);
                    } else {
                        let j = i - before.triangles.len();
                        assert(after.triangles[i] == added[j]);
                        assert(points[0].stands_in(text));
                        assert(points[j + 1].stands_in(text));
                        assert(points[j + 2].stands_in(text));
                    }
                }
            },
            _ => {},
        }
    }
}

/// Every triangle of the mesh that a text declares belongs to the text: its
/// nine coordinates lie in the text and spell decimal numbers.
pub proof fn lemma_loaded_mesh_stands(text: Seq<u8>)
    requires
        text.len() <= usize::MAX,
    ensures
        assembled(entries_of(text)) matches Ok(triangles) ==> forall|i: int|
            0 <= i < triangles.len() ==> (#[trigger] triangles[i]).stands_in(text),
{
    let all = entries_of(text);
    lemma_declared_vertices_stand(text);
    if assembly(all, all.len()) is Ok {
        lemma_gathered_stands(all, text, all.len());
    }
}

} // verus!
