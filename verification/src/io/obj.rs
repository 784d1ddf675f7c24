//! Wavefront OBJ: vertices (`v`) and polygon faces (`f`) in, vertices,
//! normals and faces out. Coordinates stay the decimal text of the file;
//! polygons are fanned into triangles, and four-sided faces are kept apart
//! and placed first so that they load as quads.
use vstd::prelude::*;
use vstd::utf8::*;
use crate::text::{
    chars_to_string, decimal, push_decimal, decode_utf8_chars, is_float_literal, is_float_literal_exec, parse_i64, parse_i64_exec,
    split_lines, split_lines_exec, tokens, tokens_exec, trim, trim_chars, lines_acc,
};

verus! {

/// One vertex as three decimal coordinate texts.
#[derive(Clone, Debug)]
pub struct ObjVertex {
    pub x: Vec<char>,
    pub y: Vec<char>,
    pub z: Vec<char>,
}

pub type VertexText = (Seq<char>, Seq<char>, Seq<char>);

impl View for ObjVertex {
    type V = VertexText;

    open spec fn view(&self) -> VertexText {
        (self.x@, self.y@, self.z@)
    }
}

/// An indexed triangle mesh read from or written to OBJ. The first
/// `quads` pairs of triangles are quads, each split along its first
/// diagonal.
#[derive(Clone, Debug)]
pub struct ObjMesh {
    pub positions: Vec<ObjVertex>,
    pub indices: Vec<u32>,
    /// Number of leading quads (`None` when there are none).
    pub quads: Option<usize>,
}

pub struct ObjMeshView {
    pub positions: Seq<VertexText>,
    pub indices: Seq<u32>,
    pub quads: Option<usize>,
}

pub open spec fn vertex_texts(v: Seq<ObjVertex>) -> Seq<VertexText> {
    Seq::new(v.len(), |i: int| v[i]@)
}

impl View for ObjMesh {
    type V = ObjMeshView;

    open spec fn view(&self) -> ObjMeshView {
        ObjMeshView {
            positions: vertex_texts(self.positions@),
            indices: self.indices@,
            quads: self.quads,
        }
    }
}

impl ObjMesh {
    pub fn vertex_count(&self) -> (n: usize)
        ensures
            n == self.positions@.len(),
    {
        self.positions.len()
    }

    pub fn triangle_count(&self) -> (n: usize)
        ensures
            n == self.indices@.len() / 3,
    {
        self.indices.len() / 3
    }

    pub fn quad_count(&self) -> (n: usize)
        ensures
            n == match self.quads {
                Some(q) => q,
                None => 0,
            },
    {
        match self.quads {
            Some(q) => q,
            None => 0,
        }
    }
}

/// Why an OBJ file was refused. Line numbers count from 1.
#[derive(Clone, Copy, Debug, PartialEq, Eq, Structural)]
pub enum ObjError {
    NotUtf8,
    /// A `v` line with fewer than three coordinates.
    MissingCoordinate(usize),
    /// A coordinate that is no float.
    InvalidFloat(usize),
    /// A face reference whose vertex number is no integer.
    InvalidFaceIndex(usize),
    /// A face reference to a vertex that is not (yet) defined.
    FaceIndexOutOfRange(usize),
    /// No vertices, or no faces.
    NoFaces,
}

// ---------------------------------------------------------------------------
// What a file means
// ---------------------------------------------------------------------------

/// The text of `s` up to the first `c` (all of it when there is none).
pub open spec fn before_char(s: Seq<char>, c: char) -> Seq<char>
    decreases s.len(),
{
    if s.len() == 0 {
        s
    } else if s[0] == c {
        seq![]
    } else {
        seq![s[0]] + before_char(s.drop_first(), c)
    }
}

#[derive(PartialEq, Eq, Structural)]
pub enum RefError {
    Invalid,
    OutOfRange,
}

/// A face reference `v`, `v/vt`, `v//vn` or `v/vt/vn` resolved against the
/// `n` vertices read so far: 1-based, or counted back from the last vertex
/// when negative.
pub open spec fn resolve_ref(r: Seq<char>, n: nat) -> Result<u32, RefError> {
    match parse_i64(before_char(r, '/')) {
        None => Err(RefError::Invalid),
        Some(v) => {
            let i: int = if v < 0 {
                n + v
            } else {
                v - 1
            };
            if i < 0 || i >= n {
                Err(RefError::OutOfRange)
            } else {
                Ok(i as u32)
            }
        },
    }
}

/// All references resolved; the first one that fails decides the error.
pub open spec fn resolve_refs(refs: Seq<Seq<char>>, n: nat) -> Result<Seq<u32>, RefError>
    decreases refs.len(),
{
    if refs.len() == 0 {
        Ok(seq![])
    } else {
        match resolve_refs(refs.drop_last(), n) {
            Err(e) => Err(e),
            Ok(ids) => match resolve_ref(refs.last(), n) {
                Err(e) => Err(e),
                Ok(i) => Ok(ids.push(i)),
            },
        }
    }
}

/// The triangle fan `(p0, p[k], p[k+1])` of a polygon, flattened.
pub open spec fn fan(p: Seq<u32>) -> Seq<u32> {
    Seq::new(
        (3 * (p.len() - 2)) as nat,
        |j: int|
            if j % 3 == 0 {
                p[0]
            } else if j % 3 == 1 {
                p[j / 3 + 1]
            } else {
                p[j / 3 + 2]
            },
    )
}

/// What has been read so far.
pub struct ObjState {
    pub positions: Seq<VertexText>,
    pub quads: Seq<u32>,
    pub tris: Seq<u32>,
}

pub open spec fn empty_state() -> ObjState {
    ObjState { positions: seq![], quads: seq![], tris: seq![] }
}

/// A `v` line: three float coordinates, checked in order.
pub open spec fn vertex_line(st: ObjState, line_no: usize, toks: Seq<Seq<char>>) -> Result<
    ObjState,
    ObjError,
> {
    if toks.len() < 2 {
        Err(ObjError::MissingCoordinate(line_no))
    } else if !is_float_literal(toks[1]) {
        Err(ObjError::InvalidFloat(line_no))
    } else if toks.len() < 3 {
        Err(ObjError::MissingCoordinate(line_no))
    } else if !is_float_literal(toks[2]) {
        Err(ObjError::InvalidFloat(line_no))
    } else if toks.len() < 4 {
        Err(ObjError::MissingCoordinate(line_no))
    } else if !is_float_literal(toks[3]) {
        Err(ObjError::InvalidFloat(line_no))
    } else {
        Ok(ObjState { positions: st.positions.push((toks[1], toks[2], toks[3])), ..st })
    }
}

/// An `f` line: fewer than three references are ignored, four make a quad,
/// any other count is fanned into the triangles.
pub open spec fn face_line(st: ObjState, line_no: usize, toks: Seq<Seq<char>>) -> Result<
    ObjState,
    ObjError,
> {
    let refs = toks.drop_first();
    if refs.len() < 3 {
        Ok(st)
    } else {
        match resolve_refs(refs, st.positions.len()) {
            Err(RefError::Invalid) => Err(ObjError::InvalidFaceIndex(line_no)),
            Err(RefError::OutOfRange) => Err(ObjError::FaceIndexOutOfRange(line_no)),
            Ok(ids) => if refs.len() == 4 {
                Ok(ObjState { quads: st.quads + fan(ids), ..st })
            } else {
                Ok(ObjState { tris: st.tris + fan(ids), ..st })
            },
        }
    }
}

/// One line (index `li`): blank lines and `#` comments are skipped, lines
/// with other keywords are ignored.
pub open spec fn obj_line(st: ObjState, li: int, line: Seq<char>) -> Result<ObjState, ObjError> {
    let t = trim(line);
    if t.len() == 0 || t[0] == '#' {
        Ok(st)
    } else {
        let toks = tokens(t);
        let kw = if toks.len() > 0 {
            toks[0]
        } else {
            seq![]
        };
        if kw == seq!['v'] {
            vertex_line(st, (li + 1) as usize, toks)
        } else if kw == seq!['f'] {
            face_line(st, (li + 1) as usize, toks)
        } else {
            Ok(st)
        }
    }
}

/// The first `k` lines, read in order; the first refusal stops the reading.
pub open spec fn obj_lines(lines: Seq<Seq<char>>, k: int) -> Result<ObjState, ObjError>
    decreases k,
{
    if k <= 0 {
        Ok(empty_state())
    } else {
        match obj_lines(lines, k - 1) {
            Err(e) => Err(e),
            Ok(st) => obj_line(st, k - 1, lines[k - 1]),
        }
    }
}

pub open spec fn quad_layout(quad_indices: nat) -> Option<usize> {
    if quad_indices / 6 == 0 {
        None
    } else {
        Some((quad_indices / 6) as usize)
    }
}

/// The mesh an OBJ text describes: quads first, then the other faces.
pub open spec fn obj_text(text: Seq<char>) -> Result<ObjMeshView, ObjError> {
    let lines = split_lines(text);
    match obj_lines(lines, lines.len() as int) {
        Err(e) => Err(e),
        Ok(st) => if st.positions.len() == 0 || (st.quads.len() == 0 && st.tris.len() == 0) {
            Err(ObjError::NoFaces)
        } else {
            Ok(
                ObjMeshView {
                    positions: st.positions,
                    indices: st.quads + st.tris,
                    quads: quad_layout(st.quads.len()),
                },
            )
        },
    }
}

/// The mesh an OBJ file describes.
pub open spec fn obj_file(bytes: Seq<u8>) -> Result<ObjMeshView, ObjError> {
    if !valid_utf8(bytes) {
        Err(ObjError::NotUtf8)
    } else {
        obj_text(decode_utf8(bytes))
    }
}

// ---------------------------------------------------------------------------
// Reading
// ---------------------------------------------------------------------------

pub(crate) proof fn lemma_before_char(s: Seq<char>, c: char, k: int)
    requires
        0 <= k <= s.len(),
        forall|i: int| 0 <= i < k ==> s[i] != c,
        k == s.len() || s[k] == c,
    ensures
        before_char(s, c) == s.take(k),
    decreases s.len(),
{
    if s.len() > 0 && k > 0 {
        lemma_before_char(s.drop_first(), c, k - 1);
        assert(seq![s[0]] + s.drop_first().take(k - 1) =~= s.take(k));
    } else if s.len() > 0 {
        assert(s.take(0) =~= Seq::<char>::empty());
    }
}

/// Resolves one face reference against `n` vertices.
fn resolve_ref_exec(r: &[char], n: usize) -> (res: Result<u32, RefError>)
    ensures
        res == resolve_ref(r@, n as nat),
{
    let mut k: usize = 0;
    while k < r.len() && r[k] != '/'
        invariant
            k <= r.len(),
            forall|i: int| 0 <= i < k ==> r@[i] != '/',
        decreases r.len() - k,
    {
        k += 1;
    }
    proof {
        lemma_before_char(r@, '/', k as int);
    }
    let mut head: Vec<char> = Vec::new();
    let mut j: usize = 0;
    while j < k
        invariant
            j <= k <= r.len(),
            head@ == r@.take(j as int),
        decreases k - j,
    {
        head.push(r[j]);
        j += 1;
    }
    match parse_i64_exec(&head) {
        None => Err(RefError::Invalid),
        Some(v) => {
            if v < 0 {
                // `n + v` for a negative `v`, without leaving `i128` bounds.
                let i: i128 = n as i128 + v as i128;
                if i < 0 {
                    Err(RefError::OutOfRange)
                } else {
                    Ok(i as u32)
                }
            } else {
                let i: i128 = v as i128 - 1;
                if i < 0 || i >= n as i128 {
                    Err(RefError::OutOfRange)
                } else {
                    Ok(i as u32)
                }
            }
        },
    }
}

/// Appends the fan of polygon `p` to `out`.
fn push_fan(out: &mut Vec<u32>, p: &Vec<u32>)
    requires
        p@.len() >= 3,
    ensures
        final(out)@ == old(out)@ + fan(p@),
{
    let ghost start = out@;
    let mut k: usize = 1;
    while k + 1 < p.len()
        invariant
            1 <= k < p.len(),
            out@ == start + fan(p@.take(k as int + 1)),
        decreases p.len() - k,
    {
        let ghost before = out@;
        out.push(p[0]);
        out.push(p[k]);
        out.push(p[k + 1]);
        assert(fan(p@.take(k as int + 2)) =~= fan(p@.take(k as int + 1)) + seq![p@[0], p@[k as int], p@[k + 1]]);
        k += 1;
    }
    assert(p@.take(k as int + 1) == p@);
}

/// Reads one line (index `li`) into the state.
fn read_line(
    positions: &mut Vec<ObjVertex>,
    quads: &mut Vec<u32>,
    tris: &mut Vec<u32>,
    li: usize,
    line: &[char],
) -> (res: Result<(), ObjError>)
    requires
        li < usize::MAX,
    ensures
        ({
            let st = ObjState {
                positions: vertex_texts(old(positions)@),
                quads: old(quads)@,
                tris: old(tris)@,
            };
            match obj_line(st, li as int, line@) {
                Err(e) => res == Err::<(), ObjError>(e),
                Ok(st2) => res is Ok && st2 == ObjState {
                    positions: vertex_texts(final(positions)@),
                    quads: final(quads)@,
                    tris: final(tris)@,
                },
            }
        }),
{
    let ghost st = ObjState { positions: vertex_texts(positions@), quads: quads@, tris: tris@ };
    let t = trim_chars(line);
    if t.len() == 0 || t[0] == '#' {
        return Ok(());
    }
    let toks = tokens_exec(&t);
    let ghost tv = toks.deep_view();
    assert(forall|i: int| 0 <= i < toks@.len() ==> #[trigger] toks@[i]@ == tv[i]);
    let line_no = li + 1;
    let is_v = toks.len() > 0 && toks[0].len() == 1 && toks[0][0] == 'v';
    let is_f = toks.len() > 0 && toks[0].len() == 1 && toks[0][0] == 'f';
    proof {
        let kw = if tv.len() > 0 {
            tv[0]
        } else {
            seq![]
        };
        if tv.len() > 0 {
            assert(is_v <==> kw =~= seq!['v']);
            assert(is_f <==> kw =~= seq!['f']);
        } else {
            assert(kw.len() == 0);
        }
    }
    if is_v {
        if toks.len() < 2 {
            return Err(ObjError::MissingCoordinate(line_no));
        }
        if !is_float_literal_exec(&toks[1]) {
            return Err(ObjError::InvalidFloat(line_no));
        }
        if toks.len() < 3 {
            return Err(ObjError::MissingCoordinate(line_no));
        }
        if !is_float_literal_exec(&toks[2]) {
            return Err(ObjError::InvalidFloat(line_no));
        }
        if toks.len() < 4 {
            return Err(ObjError::MissingCoordinate(line_no));
        }
        if !is_float_literal_exec(&toks[3]) {
            return Err(ObjError::InvalidFloat(line_no));
        }
        let v = ObjVertex { x: toks[1].clone(), y: toks[2].clone(), z: toks[3].clone() };
        let ghost before = positions@;
        positions.push(v);
        assert(vertex_texts(positions@) =~= vertex_texts(before).push((tv[1], tv[2], tv[3])));
        Ok(())
    } else if is_f {
        let nrefs = toks.len() - 1;
        if nrefs < 3 {
            return Ok(());
        }
        let ghost refs = tv.drop_first();
        let n = positions.len();
        let mut ids: Vec<u32> = Vec::new();
        let mut k: usize = 1;
        #[verifier::loop_isolation(false)]
        while k < toks.len()
            invariant
                1 <= k <= toks@.len(),
                tv == toks.deep_view(),
                refs == tv.drop_first(),
                forall|i: int| 0 <= i < toks@.len() ==> #[trigger] toks@[i]@ == tv[i],
                n == positions@.len(),
                resolve_refs(refs.take(k - 1), n as nat) == Ok::<Seq<u32>, RefError>(ids@),
                ids@.len() == k - 1,
                line_no == li + 1,
                vertex_texts(positions@).len() == n,
            decreases toks@.len() - k,
        {
            assert(refs.take(k as int).drop_last() == refs.take(k - 1));
            match resolve_ref_exec(&toks[k], n) {
                Err(e) => {
                    assert(resolve_refs(refs.take(k as int), n as nat) == Err::<Seq<u32>, RefError>(e));
                    proof {
                        lemma_resolve_refs_prefix_err(refs, n as nat, k as int);
                        assert(resolve_refs(refs, n as nat) == Err::<Seq<u32>, RefError>(e));
                    }
                    return match e {
                        RefError::Invalid => Err(ObjError::InvalidFaceIndex(line_no)),
                        RefError::OutOfRange => Err(ObjError::FaceIndexOutOfRange(line_no)),
                    };
                },
                Ok(i) => {
                    ids.push(i);
                },
            }
            k += 1;
        }
        assert(refs.take(k - 1) == refs);
        if nrefs == 4 {
            push_fan(quads, &ids);
        } else {
            push_fan(tris, &ids);
        }
        Ok(())
    } else {
        Ok(())
    }
}

/// An error in a prefix of the references is the error of all of them.
proof fn lemma_resolve_refs_prefix_err(refs: Seq<Seq<char>>, n: nat, k: int)
    requires
        0 <= k <= refs.len(),
        resolve_refs(refs.take(k), n) is Err,
    ensures
        resolve_refs(refs, n) == resolve_refs(refs.take(k), n),
    decreases refs.len() - k,
{
    if k < refs.len() {
        assert(refs.take(k + 1).drop_last() == refs.take(k));
        lemma_resolve_refs_prefix_err(refs, n, k + 1);
    } else {
        assert(refs.take(k) == refs);
    }
}

/// Reads an OBJ file: `v` lines give vertices, `f` lines polygons, which are
/// fanned into triangles; four-sided faces become the leading quads.
pub fn load(bytes: &[u8]) -> (res: Result<ObjMesh, ObjError>)
    ensures
        match obj_file(bytes@) {
            Ok(m) => res matches Ok(r) && r@ == m,
            Err(e) => res == Err::<ObjMesh, ObjError>(e),
        },
{
    let text = match decode_utf8_chars(bytes) {
        None => return Err(ObjError::NotUtf8),
        Some(t) => t,
    };
    let lines = split_lines_exec(&text);
    let ghost lv = lines.deep_view();
    assert(forall|i: int| 0 <= i < lines@.len() ==> #[trigger] lines@[i]@ == lv[i]);
    let mut positions: Vec<ObjVertex> = Vec::new();
    let mut quads: Vec<u32> = Vec::new();
    let mut tris: Vec<u32> = Vec::new();
    assert(vertex_texts(positions@) =~= Seq::<VertexText>::empty());
    let mut li: usize = 0;
    while li < lines.len()
        invariant
            li <= lines@.len(),
            lv == lines.deep_view(),
            lv == split_lines(text@),
            text@ == decode_utf8(bytes@),
            valid_utf8(bytes@),
            forall|i: int| 0 <= i < lines@.len() ==> #[trigger] lines@[i]@ == lv[i],
            obj_lines(lv, li as int) == Ok::<ObjState, ObjError>(
                ObjState { positions: vertex_texts(positions@), quads: quads@, tris: tris@ },
            ),
        decreases lines@.len() - li,
    {
        proof {
            assert(lines@.len() <= text@.len() + 1) by {
                lemma_lines_count(text@);
            }
        }
        match read_line(&mut positions, &mut quads, &mut tris, li, &lines[li]) {
            Err(e) => {
                proof {
                    lemma_obj_lines_err(lv, li as int + 1);
                }
                return Err(e);
            },
            Ok(()) => {},
        }
        li += 1;
    }
    if positions.len() == 0 || (quads.len() == 0 && tris.len() == 0) {
        return Err(ObjError::NoFaces);
    }
    let nq = quads.len() / 6;
    let mut indices = quads;
    let mut t: usize = 0;
    let ghost q = indices@;
    while t < tris.len()
        invariant
            t <= tris@.len(),
            indices@ == q + tris@.take(t as int),
        decreases tris@.len() - t,
    {
        indices.push(tris[t]);
        t += 1;
    }
    assert(tris@.take(tris@.len() as int) == tris@);
    Ok(ObjMesh { positions, indices, quads: if nq == 0 { None } else { Some(nq) } })
}

/// A file has at most one more line than characters.
pub(crate) proof fn lemma_lines_count(s: Seq<char>)
    ensures
        lines_acc(s).0.len() <= s.len(),
        split_lines(s).len() <= s.len() + 1,
    decreases s.len(),
{
    if s.len() > 0 {
        lemma_lines_count(s.drop_last());
    }
}

/// Once a line is refused, reading more lines keeps the refusal.
proof fn lemma_obj_lines_err(lines: Seq<Seq<char>>, k: int)
    requires
        0 <= k <= lines.len(),
        obj_lines(lines, k) is Err,
    ensures
        obj_lines(lines, lines.len() as int) == obj_lines(lines, k),
    decreases lines.len() - k,
{
    if k < lines.len() {
        lemma_obj_lines_err(lines, k + 1);
    }
}

} // verus!

verus! {

// ---------------------------------------------------------------------------
// Writing
// ---------------------------------------------------------------------------

/// Words separated by single spaces.
pub open spec fn join_words(ws: Seq<Seq<char>>) -> Seq<char>
    decreases ws.len(),
{
    if ws.len() == 0 {
        seq![]
    } else if ws.len() == 1 {
        ws[0]
    } else {
        join_words(ws.drop_last()) + seq![' '] + ws.last()
    }
}

/// A line of words, ended by a line feed.
pub open spec fn text_line(ws: Seq<Seq<char>>) -> Seq<char> {
    join_words(ws) + seq!['\n']
}

/// Lines one after the other.
pub open spec fn concat(ls: Seq<Seq<char>>) -> Seq<char>
    decreases ls.len(),
{
    if ls.len() == 0 {
        seq![]
    } else {
        concat(ls.drop_last()) + ls.last()
    }
}

/// A face corner `n//n`, with `n` the 1-based vertex number (the normal of
/// a vertex has the vertex's number).
pub open spec fn face_ref(i: u32) -> Seq<char> {
    decimal(i as nat + 1) + seq!['/', '/'] + decimal(i as nat + 1)
}

pub open spec fn face_words(ids: Seq<u32>) -> Seq<Seq<char>> {
    seq![seq!['f']] + Seq::new(ids.len(), |k: int| face_ref(ids[k]))
}

pub open spec fn coord_words(kw: Seq<char>, v: VertexText) -> Seq<Seq<char>> {
    seq![kw, v.0, v.1, v.2]
}

pub open spec fn quad_count_of(q: Option<usize>) -> nat {
    match q {
        Some(n) => n as nat,
        None => 0,
    }
}

pub open spec fn coord_lines(kw: Seq<char>, vs: Seq<VertexText>) -> Seq<Seq<char>> {
    Seq::new(vs.len(), |i: int| text_line(coord_words(kw, vs[i])))
}

/// The face lines of the first `q` quads (corners 0, 1, 2 and 5 of each
/// pair of triangles).
pub open spec fn quad_lines(ind: Seq<u32>, q: nat) -> Seq<Seq<char>> {
    Seq::new(
        q,
        |i: int|
            text_line(
                face_words(seq![ind[6 * i], ind[6 * i + 1], ind[6 * i + 2], ind[6 * i + 5]]),
            ),
    )
}

/// The face lines of triangles `from..to`.
pub open spec fn tri_lines(ind: Seq<u32>, from: nat, to: nat) -> Seq<Seq<char>> {
    Seq::new(
        if to >= from {
            (to - from) as nat
        } else {
            0
        },
        |t: int| text_line(face_words(seq![ind[3 * (t + from)], ind[3 * (t + from) + 1], ind[3 * (t + from) + 2]])),
    )
}

/// The lines of the OBJ text of a mesh: its vertices, its normals, its
/// quads as four-sided faces, then its other triangles.
pub open spec fn obj_save_lines(m: ObjMeshView, normals: Seq<VertexText>) -> Seq<Seq<char>> {
    let k = if m.positions.len() <= normals.len() {
        m.positions.len()
    } else {
        normals.len()
    };
    let q = quad_count_of(m.quads);
    coord_lines(seq!['v'], m.positions.take(k as int)) + coord_lines(
        seq!['v', 'n'],
        normals.take(k as int),
    ) + quad_lines(m.indices, q) + tri_lines(m.indices, 2 * q, m.indices.len() / 3)
}

pub proof fn lemma_concat_append(a: Seq<Seq<char>>, b: Seq<Seq<char>>)
    ensures
        concat(a + b) == concat(a) + concat(b),
    decreases b.len(),
{
    if b.len() == 0 {
        assert(a + b =~= a);
    } else {
        lemma_concat_append(a, b.drop_last());
        assert((a + b).drop_last() =~= a + b.drop_last());
    }
}

/// The OBJ text of a mesh with the given vertex normals.
pub open spec fn obj_save(m: ObjMeshView, normals: Seq<VertexText>) -> Seq<char> {
    concat(obj_save_lines(m, normals))
}

fn push_all(out: &mut Vec<char>, s: &[char])
    ensures
        final(out)@ == old(out)@ + s@,
{
    let ghost start = out@;
    let mut i: usize = 0;
    while i < s.len()
        invariant
            i <= s.len(),
            out@ == start + s@.take(i as int),
        decreases s.len() - i,
    {
        out.push(s[i]);
        i += 1;
    }
    assert(s@.take(s@.len() as int) == s@);
}

fn push_coord_line(out: &mut Vec<char>, kw: &[char], v: &ObjVertex)
    ensures
        final(out)@ == old(out)@ + text_line(coord_words(kw@, v@)),
{
    let ghost start = out@;
    push_all(out, kw);
    out.push(' ');
    push_all(out, &v.x);
    out.push(' ');
    push_all(out, &v.y);
    out.push(' ');
    push_all(out, &v.z);
    out.push('\n');
    let ghost ws = coord_words(kw@, v@);
    assert(ws.drop_last().drop_last().drop_last() =~= seq![kw@]);
    assert(ws.drop_last().drop_last() =~= seq![kw@, v.x@]);
    assert(ws.drop_last() =~= seq![kw@, v.x@, v.y@]);
    assert(join_words(seq![kw@]) == kw@);
    assert(join_words(ws.drop_last().drop_last()) == kw@ + seq![' '] + v.x@);
    assert(join_words(ws.drop_last()) == kw@ + seq![' '] + v.x@ + seq![' '] + v.y@);
    assert(join_words(ws) == kw@ + seq![' '] + v.x@ + seq![' '] + v.y@ + seq![' '] + v.z@);
    assert(out@ =~= start + text_line(ws));
}

fn push_face_ref(out: &mut Vec<char>, i: u32)
    requires
        i < u32::MAX,
    ensures
        final(out)@ == old(out)@ + face_ref(i),
{
    let n = (i as u64) + 1;
    push_decimal(out, n);
    out.push('/');
    out.push('/');
    push_decimal(out, n);
    assert(final(out)@ =~= old(out)@ + face_ref(i)) by {
        assert(n as nat == i as nat + 1);
    }
}

/// Appends the face line of `ids`.
fn push_face_line(out: &mut Vec<char>, ids: &[u32])
    requires
        ids@.len() >= 1,
        forall|k: int| 0 <= k < ids@.len() ==> ids@[k] < u32::MAX,
    ensures
        final(out)@ == old(out)@ + text_line(face_words(ids@)),
{
    let ghost start = out@;
    out.push('f');
    let mut k: usize = 0;
    while k < ids.len()
        invariant
            k <= ids@.len(),
            forall|j: int| 0 <= j < ids@.len() ==> ids@[j] < u32::MAX,
            out@ == start + join_words(face_words(ids@.take(k as int))),
        decreases ids@.len() - k,
    {
        proof {
            assert(face_words(ids@.take(k as int + 1)).drop_last() =~= face_words(
                ids@.take(k as int),
            ));
            assert(face_words(ids@.take(0)) =~= seq![seq!['f']]);
        }
        out.push(' ');
        push_face_ref(out, ids[k]);
        k += 1;
        proof {
            let w = face_words(ids@.take(k as int));
            assert(w.len() >= 2);
            assert(w.last() == face_ref(ids@[k - 1]));
        }
    }
    assert(ids@.take(ids@.len() as int) == ids@);
    out.push('\n');
}

/// Appends the coordinate lines of the first `k` vertices.
fn write_coord_lines(out: &mut Vec<char>, kw: &[char], vs: &[ObjVertex], k: usize)
    requires
        k <= vs@.len(),
    ensures
        final(out)@ == old(out)@ + concat(coord_lines(kw@, vertex_texts(vs@).take(k as int))),
{
    let ghost start = out@;
    let ghost all = vertex_texts(vs@);
    let mut i: usize = 0;
    while i < k
        invariant
            i <= k <= vs@.len(),
            all == vertex_texts(vs@),
            out@ == start + concat(coord_lines(kw@, all.take(i as int))),
        decreases k - i,
    {
        assert(coord_lines(kw@, all.take(i + 1)).drop_last() =~= coord_lines(kw@, all.take(i as int)));
        push_coord_line(out, kw, &vs[i]);
        i += 1;
    }
}

/// Appends the face lines of the first `q` quads.
fn write_quad_lines(out: &mut Vec<char>, ind: &[u32], q: usize)
    requires
        6 * q <= ind@.len(),
        forall|k: int| 0 <= k < ind@.len() ==> ind@[k] < u32::MAX,
    ensures
        final(out)@ == old(out)@ + concat(quad_lines(ind@, q as nat)),
{
    let ghost start = out@;
    let n = ind.len();
    let mut j: usize = 0;
    while j < q
        invariant
            n == ind@.len(),
            j <= q,
            6 * q <= ind@.len(),
            forall|k: int| 0 <= k < ind@.len() ==> ind@[k] < u32::MAX,
            out@ == start + concat(quad_lines(ind@, j as nat)),
        decreases q - j,
    {
        assert(quad_lines(ind@, j as nat + 1).drop_last() =~= quad_lines(ind@, j as nat));
        let ids = [ind[6 * j], ind[6 * j + 1], ind[6 * j + 2], ind[6 * j + 5]];
        assert(ids@ =~= seq![ind@[6 * j], ind@[6 * j + 1], ind@[6 * j + 2], ind@[6 * j + 5]]);
        push_face_line(out, &ids);
        j += 1;
    }
}

/// Appends the face lines of triangles `from..to`.
fn write_tri_lines(out: &mut Vec<char>, ind: &[u32], from: usize, to: usize)
    requires
        3 * to <= ind@.len(),
        forall|k: int| 0 <= k < ind@.len() ==> ind@[k] < u32::MAX,
    ensures
        final(out)@ == old(out)@ + concat(tri_lines(ind@, from as nat, to as nat)),
{
    let ghost start = out@;
    let n = ind.len();
    let mut t: usize = from;
    assert(tri_lines(ind@, from as nat, from as nat) =~= Seq::<Seq<char>>::empty());
    while t < to
        invariant
            n == ind@.len(),
            from <= t,
            t <= to || (to < from && t == from),
            3 * to <= ind@.len(),
            forall|k: int| 0 <= k < ind@.len() ==> ind@[k] < u32::MAX,
            out@ == start + concat(tri_lines(ind@, from as nat, t as nat)),
        decreases to - t,
    {
        assert(tri_lines(ind@, from as nat, t as nat + 1).drop_last() =~= tri_lines(
            ind@,
            from as nat,
            t as nat,
        ));
        let ids = [ind[3 * t], ind[3 * t + 1], ind[3 * t + 2]];
        assert(ids@ =~= seq![ind@[3 * t], ind@[3 * t + 1], ind@[3 * t + 2]]);
        push_face_line(out, &ids);
        t += 1;
    }
    if to < from {
        assert(tri_lines(ind@, from as nat, to as nat) =~= Seq::<Seq<char>>::empty());
    }
}

/// `save` can write the mesh: whole quads, indices whose 1-based number
/// fits in `u32`.
pub open spec fn saveable(m: ObjMeshView) -> bool {
    &&& 6 * quad_count_of(m.quads) <= m.indices.len()
    &&& forall|k: int| 0 <= k < m.indices.len() ==> m.indices[k] < u32::MAX
}

/// Writes the mesh as OBJ text: `v` lines, `vn` lines (one normal per
/// vertex), then the faces with 1-based `n//n` corners; quads are written
/// as four-sided faces.
pub fn save(mesh: &ObjMesh, normals: &[ObjVertex]) -> (s: String)
    requires
        saveable(mesh@),
    ensures
        s@ == obj_save(mesh@, vertex_texts(normals@)),
{
    let k = if mesh.positions.len() <= normals.len() {
        mesh.positions.len()
    } else {
        normals.len()
    };
    let mut out: Vec<char> = Vec::new();
    let v = ['v'];
    let vn = ['v', 'n'];
    assert(v@ == seq!['v']);
    assert(vn@ == seq!['v', 'n']);
    let ghost a = out@;
    write_coord_lines(&mut out, &v, &mesh.positions, k);
    let ghost b = out@;
    write_coord_lines(&mut out, &vn, normals, k);
    let ghost c = out@;
    let q = mesh.quad_count();
    write_quad_lines(&mut out, &mesh.indices, q);
    let ghost d = out@;
    let nt = mesh.triangle_count();
    assert(3 * nt <= mesh.indices@.len()) by (nonlinear_arith)
        requires
            nt == mesh.indices@.len() / 3,
    ;
    write_tri_lines(&mut out, &mesh.indices, 2 * q, nt);
    proof {
        let m = mesh@;
        let nv = vertex_texts(normals@);
        let l1 = coord_lines(seq!['v'], m.positions.take(k as int));
        let l2 = coord_lines(seq!['v', 'n'], nv.take(k as int));
        let l3 = quad_lines(m.indices, q as nat);
        let l4 = tri_lines(m.indices, 2 * q as nat, nt as nat);
        assert(vertex_texts(mesh.positions@) == m.positions);
        lemma_concat_append(l1, l2);
        lemma_concat_append(l1 + l2, l3);
        lemma_concat_append(l1 + l2 + l3, l4);
        assert(obj_save_lines(m, nv) == l1 + l2 + l3 + l4);
        assert(out@ =~= concat(l1 + l2 + l3 + l4));
    }
    chars_to_string(&out)
}

} // verus!
