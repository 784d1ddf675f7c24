//! Reading back what `obj::save` wrote gives the mesh that was written.
use vstd::prelude::*;
use vstd::utf8::*;
use crate::text::{decimal, is_ascii_ws, is_digit, is_exp_mark, is_float_literal, is_mantissa, is_signed_digits, is_unicode_ws, lemma_decimal_digits, lemma_parse_decimal, lines_acc, lower, lower_eq, split_lines, tokens, tokens_acc, trim, trim_end, trim_start};
use super::obj::{coord_lines, coord_words, concat, face_ref, face_words, fan, join_words, lemma_before_char, obj_file, obj_line, obj_lines, obj_save, obj_save_lines, obj_text, quad_count_of, quad_layout, quad_lines, resolve_ref, resolve_refs, saveable, text_line, tri_lines, ObjMeshView, ObjState, RefError, VertexText};

verus! {

/// A word that no whitespace splits or trims: non-empty, without Unicode
/// whitespace (which includes all ASCII whitespace and the line feed).
pub open spec fn plain_word(s: Seq<char>) -> bool {
    s.len() > 0 && forall|i: int| 0 <= i < s.len() ==> !is_unicode_ws(#[trigger] s[i])
}

pub open spec fn plain_vertex(v: VertexText) -> bool {
    is_float_literal(v.0) && is_float_literal(v.1) && is_float_literal(v.2)
}

/// The meshes that `save` writes so that `load` reads them back unchanged:
/// one float-text normal per float-text vertex, whole triangles, indices of
/// existing vertices, and quads stored as `(a, b, c), (a, c, d)`.
pub open spec fn round_trips(m: ObjMeshView, normals: Seq<VertexText>) -> bool {
    let q = quad_count_of(m.quads);
    &&& saveable(m)
    &&& m.positions.len() == normals.len()
    &&& m.positions.len() > 0
    &&& forall|i: int| 0 <= i < m.positions.len() ==> plain_vertex(#[trigger] m.positions[i])
    &&& forall|i: int| 0 <= i < normals.len() ==> plain_vertex(#[trigger] normals[i])
    &&& m.indices.len() % 3 == 0
    &&& m.indices.len() > 0
    &&& forall|k: int| 0 <= k < m.indices.len() ==> m.indices[k] < m.positions.len()
    &&& m.quads != Some(0usize)
    &&& forall|i: int|
        0 <= i < q ==> #[trigger] m.indices[6 * i + 3] == m.indices[6 * i] && m.indices[6 * i
            + 4] == m.indices[6 * i + 2]
}

// ---------------------------------------------------------------------------
// Characters of the written words
// ---------------------------------------------------------------------------

proof fn lemma_ws_ascii(c: char)
    ensures
        is_ascii_ws(c) ==> is_unicode_ws(c),
        c == '\n' ==> is_unicode_ws(c),
{
}

proof fn lemma_float_literal_plain(s: Seq<char>)
    requires
        is_float_literal(s),
    ensures
        plain_word(s),
{
    let b = if s.len() > 0 && (s[0] == '+' || s[0] == '-') {
        s.drop_first()
    } else {
        s
    };
    let off: int = if s.len() > 0 && (s[0] == '+' || s[0] == '-') {
        1
    } else {
        0
    };
    assert forall|i: int| 0 <= i < b.len() implies !is_unicode_ws(#[trigger] b[i]) by {
        if lower_eq(b, seq!['i', 'n', 'f']) || lower_eq(
            b,
            seq!['i', 'n', 'f', 'i', 'n', 'i', 't', 'y'],
        ) || lower_eq(b, seq!['n', 'a', 'n']) {
            assert('a' <= lower(b[i]) <= 'z');
        } else if is_mantissa(b) {
            assert(is_digit(b[i]) || b[i] == '.');
        } else {
            let k = choose|k: int|
                0 <= k < b.len() && is_exp_mark(#[trigger] b[k]) && is_mantissa(b.take(k))
                    && is_signed_digits(b.skip(k + 1));
            if i < k {
                assert(b.take(k)[i] == b[i]);
                assert(is_digit(b[i]) || b[i] == '.');
            } else if i > k {
                let x = b.skip(k + 1);
                assert(x[i - k - 1] == b[i]);
                if x.len() > 0 && (x[0] == '+' || x[0] == '-') {
                    if i > k + 1 {
                        assert(x.drop_first()[i - k - 2] == b[i]);
                        assert(is_digit(b[i]));
                    }
                } else {
                    assert(is_digit(b[i]));
                }
            }
        }
    }
    assert(b.len() > 0) by {
        if lower_eq(b, seq!['i', 'n', 'f']) || lower_eq(
            b,
            seq!['i', 'n', 'f', 'i', 'n', 'i', 't', 'y'],
        ) || lower_eq(b, seq!['n', 'a', 'n']) {
        } else if is_mantissa(b) {
        } else {
        }
    }
    assert forall|i: int| 0 <= i < s.len() implies !is_unicode_ws(#[trigger] s[i]) by {
        if off == 1 && i == 0 {
        } else {
            assert(s[i] == b[i - off]);
        }
    }
}

proof fn lemma_face_ref_plain(i: u32)
    ensures
        plain_word(face_ref(i)),
        forall|k: int| 0 <= k < decimal(i as nat + 1).len() ==> #[trigger] face_ref(i)[k] == decimal(i as nat + 1)[k],
        face_ref(i)[decimal(i as nat + 1).len() as int] == '/',
{
    lemma_decimal_digits(i as nat + 1);
    let d = decimal(i as nat + 1);
    let r = face_ref(i);
    assert forall|k: int| 0 <= k < r.len() implies !is_unicode_ws(#[trigger] r[k]) by {
        if k < d.len() {
            assert(r[k] == d[k]);
        } else if k < d.len() + 2 {
            assert(r[k] == '/');
        } else {
            assert(r[k] == d[k - d.len() - 2]);
        }
    }
}

// ---------------------------------------------------------------------------
// Lines
// ---------------------------------------------------------------------------

proof fn lemma_lines_acc_append(s: Seq<char>, t: Seq<char>)
    requires
        forall|i: int| 0 <= i < t.len() ==> t[i] != '\n',
    ensures
        lines_acc(s + t) == (lines_acc(s).0, lines_acc(s).1 + t),
    decreases t.len(),
{
    if t.len() == 0 {
        assert(s + t =~= s);
        assert(lines_acc(s).1 + t =~= lines_acc(s).1);
    } else {
        lemma_lines_acc_append(s, t.drop_last());
        assert((s + t).drop_last() =~= s + t.drop_last());
        assert(lines_acc(s).1 + t.drop_last() + seq![t.last()] =~= lines_acc(s).1 + t);
    }
}

/// Lines written one after the other, each ended by a line feed, split
/// back into the same lines (and the empty piece after the last feed).
pub(crate) proof fn lemma_split_written_lines(ls: Seq<Seq<char>>)
    requires
        forall|i: int|
            0 <= i < ls.len() ==> (#[trigger] ls[i]).len() > 0 && ls[i].last() == '\n' && forall|
                k: int,
            |
                0 <= k < ls[i].len() - 1 ==> ls[i][k] != '\n',
    ensures
        lines_acc(concat(ls)) == (Seq::new(ls.len(), |i: int| ls[i].drop_last()), Seq::<char>::empty()),
    decreases ls.len(),
{
    if ls.len() == 0 {
        assert(Seq::new(0, |i: int| ls[i].drop_last()) =~= Seq::<Seq<char>>::empty());
    } else {
        let prev = ls.drop_last();
        lemma_split_written_lines(prev);
        let l = ls.last();
        let body = l.drop_last();
        assert(body + seq!['\n'] =~= l);
        lemma_lines_acc_append(concat(prev), body);
        assert(concat(ls) == concat(prev) + l);
        assert(concat(prev) + l =~= (concat(prev) + body) + seq!['\n']);
        assert((concat(prev) + body + seq!['\n']).drop_last() =~= concat(prev) + body);
        assert(Seq::<char>::empty() + body =~= body);
        assert(Seq::new(ls.len(), |i: int| ls[i].drop_last()) =~= Seq::new(
            prev.len(),
            |i: int| prev[i].drop_last(),
        ).push(body));
    }
}

// ---------------------------------------------------------------------------
// Words
// ---------------------------------------------------------------------------

proof fn lemma_tokens_acc_append(s: Seq<char>, t: Seq<char>)
    requires
        forall|i: int| 0 <= i < t.len() ==> !is_ascii_ws(t[i]),
    ensures
        tokens_acc(s + t) == (tokens_acc(s).0, tokens_acc(s).1 + t),
    decreases t.len(),
{
    if t.len() == 0 {
        assert(s + t =~= s);
        assert(tokens_acc(s).1 + t =~= tokens_acc(s).1);
    } else {
        lemma_tokens_acc_append(s, t.drop_last());
        assert((s + t).drop_last() =~= s + t.drop_last());
        assert(tokens_acc(s).1 + t.drop_last() + seq![t.last()] =~= tokens_acc(s).1 + t);
    }
}

proof fn lemma_join_tokens(ws: Seq<Seq<char>>)
    requires
        ws.len() > 0,
        forall|i: int| 0 <= i < ws.len() ==> plain_word(#[trigger] ws[i]),
    ensures
        tokens_acc(join_words(ws)) == (ws.drop_last(), ws.last()),
        tokens(join_words(ws)) == ws,
    decreases ws.len(),
{
    let w = ws.last();
    assert(plain_word(w));
    assert forall|i: int| 0 <= i < w.len() implies !is_ascii_ws(w[i]) by {
        lemma_ws_ascii(w[i]);
    }
    if ws.len() == 1 {
        lemma_tokens_acc_append(seq![], w);
        assert(Seq::<char>::empty() + w =~= w);
        assert(ws.drop_last() =~= Seq::<Seq<char>>::empty());
        assert(Seq::<Seq<char>>::empty().push(w) =~= ws);
    } else {
        let prev = ws.drop_last();
        lemma_join_tokens(prev);
        let s = join_words(prev);
        assert(prev.last().len() > 0);
        assert((s + seq![' ']).drop_last() =~= s);
        assert(tokens_acc(s + seq![' ']) == (prev, Seq::<char>::empty())) by {
            assert(prev.drop_last().push(prev.last()) =~= prev);
        }
        lemma_tokens_acc_append(s + seq![' '], w);
        assert(Seq::<char>::empty() + w =~= w);
        assert(ws.drop_last().push(w) =~= ws);
    }
}

proof fn lemma_join_chars(ws: Seq<Seq<char>>)
    requires
        ws.len() > 0,
        forall|i: int| 0 <= i < ws.len() ==> plain_word(#[trigger] ws[i]),
    ensures
        join_words(ws).len() > 0,
        join_words(ws)[0] == ws[0][0],
        join_words(ws).last() == ws.last().last(),
        forall|i: int| 0 <= i < join_words(ws).len() ==> #[trigger] join_words(ws)[i] != '\n',
    decreases ws.len(),
{
    if ws.len() == 1 {
        let w = ws[0];
        assert forall|i: int| 0 <= i < w.len() implies #[trigger] w[i] != '\n' by {
            lemma_ws_ascii(w[i]);
        }
    } else {
        let prev = ws.drop_last();
        lemma_join_chars(prev);
        let s = join_words(prev);
        let w = ws.last();
        let j = join_words(ws);
        assert(j == s + seq![' '] + w);
        assert forall|i: int| 0 <= i < j.len() implies #[trigger] j[i] != '\n' by {
            if i < s.len() {
                assert(j[i] == s[i]);
            } else if i == s.len() {
            } else {
                assert(j[i] == w[i - s.len() - 1]);
                lemma_ws_ascii(w[i - s.len() - 1]);
            }
        }
    }
}

/// A written line: trimming changes nothing and the tokens are its words.
pub(crate) proof fn lemma_written_line(ws: Seq<Seq<char>>)
    requires
        ws.len() > 0,
        forall|i: int| 0 <= i < ws.len() ==> plain_word(#[trigger] ws[i]),
    ensures
        trim(join_words(ws)) == join_words(ws),
        tokens(trim(join_words(ws))) == ws,
        text_line(ws).len() > 0,
        text_line(ws).last() == '\n',
        forall|k: int| 0 <= k < text_line(ws).len() - 1 ==> #[trigger] text_line(ws)[k] != '\n',
        text_line(ws).drop_last() == join_words(ws),
        join_words(ws)[0] == ws[0][0],
{
    lemma_join_chars(ws);
    lemma_join_tokens(ws);
    let j = join_words(ws);
    assert(!is_unicode_ws(j[0])) by {
        assert(plain_word(ws[0]));
    }
    assert(!is_unicode_ws(j.last())) by {
        assert(plain_word(ws.last()));
    }
    assert(trim_start(j) == j);
    assert(trim_end(j) == j);
    let l = text_line(ws);
    assert(l.drop_last() =~= j);
    assert forall|k: int| 0 <= k < l.len() - 1 implies #[trigger] l[k] != '\n' by {
        assert(l[k] == j[k]);
    }
}

// ---------------------------------------------------------------------------
// One line at a time
// ---------------------------------------------------------------------------

proof fn lemma_coord_words_plain(kw: Seq<char>, v: VertexText)
    requires
        plain_word(kw),
        plain_vertex(v),
    ensures
        forall|i: int| 0 <= i < 4 ==> plain_word(#[trigger] coord_words(kw, v)[i]),
{
    lemma_float_literal_plain(v.0);
    lemma_float_literal_plain(v.1);
    lemma_float_literal_plain(v.2);
}

proof fn lemma_face_words_plain(ids: Seq<u32>)
    requires
        forall|k: int| 0 <= k < ids.len() ==> ids[k] < u32::MAX,
    ensures
        forall|i: int| 0 <= i < face_words(ids).len() ==> plain_word(#[trigger] face_words(ids)[i]),
{
    assert forall|i: int| 0 <= i < face_words(ids).len() implies plain_word(
        #[trigger] face_words(ids)[i],
    ) by {
        if i > 0 {
            lemma_face_ref_plain(ids[i - 1]);
        }
    }
}

proof fn lemma_resolve_face_ref(i: u32, n: nat)
    requires
        (i as nat) < n,
        i < u32::MAX,
    ensures
        resolve_ref(face_ref(i), n) == Ok::<u32, RefError>(i),
{
    lemma_face_ref_plain(i);
    lemma_decimal_digits(i as nat + 1);
    let d = decimal(i as nat + 1);
    assert forall|k: int| 0 <= k < d.len() implies face_ref(i)[k] != '/' by {
        assert(face_ref(i)[k] == d[k]);
        assert(is_digit(d[k]));
    }
    lemma_before_char(face_ref(i), '/', d.len() as int);
    assert(face_ref(i).take(d.len() as int) =~= d);
    lemma_parse_decimal(i as nat + 1);
}

proof fn lemma_resolve_face_refs(ids: Seq<u32>, n: nat)
    requires
        forall|k: int| 0 <= k < ids.len() ==> (ids[k] as nat) < n && ids[k] < u32::MAX,
    ensures
        resolve_refs(Seq::new(ids.len(), |k: int| face_ref(ids[k])), n) == Ok::<
            Seq<u32>,
            RefError,
        >(ids),
    decreases ids.len(),
{
    let refs = Seq::new(ids.len(), |k: int| face_ref(ids[k]));
    if ids.len() > 0 {
        let prev = ids.drop_last();
        lemma_resolve_face_refs(prev, n);
        assert(refs.drop_last() =~= Seq::new(prev.len(), |k: int| face_ref(prev[k])));
        lemma_resolve_face_ref(ids.last(), n);
        assert(refs.last() == face_ref(ids.last()));
        assert(resolve_refs(refs.drop_last(), n) == Ok::<Seq<u32>, RefError>(prev));
        assert(prev.push(ids.last()) =~= ids);
    } else {
        assert(refs =~= Seq::<Seq<char>>::empty());
        assert(ids =~= Seq::<u32>::empty());
    }
}

proof fn lemma_vertex_line(st: ObjState, li: int, v: VertexText)
    requires
        plain_vertex(v),
    ensures
        obj_line(st, li, join_words(coord_words(seq!['v'], v))) == Ok::<ObjState, super::obj::ObjError>(
            ObjState { positions: st.positions.push(v), ..st },
        ),
{
    let ws = coord_words(seq!['v'], v);
    lemma_coord_words_plain(seq!['v'], v);
    lemma_written_line(ws);
    let t = trim(join_words(ws));
    assert(t[0] == 'v');
    assert(tokens(t)[0] =~= seq!['v']);
}

proof fn lemma_normal_line(st: ObjState, li: int, v: VertexText)
    requires
        plain_vertex(v),
    ensures
        obj_line(st, li, join_words(coord_words(seq!['v', 'n'], v))) == Ok::<
            ObjState,
            super::obj::ObjError,
        >(st),
{
    let ws = coord_words(seq!['v', 'n'], v);
    lemma_coord_words_plain(seq!['v', 'n'], v);
    lemma_written_line(ws);
    let t = trim(join_words(ws));
    assert(t[0] == 'v');
    assert(tokens(t)[0] =~= seq!['v', 'n']);
    assert(tokens(t)[0].len() == 2);
}

proof fn lemma_face_line(st: ObjState, li: int, ids: Seq<u32>)
    requires
        ids.len() == 3 || ids.len() == 4,
        forall|k: int| 0 <= k < ids.len() ==> (ids[k] as nat) < st.positions.len() && ids[k] < u32::MAX,
    ensures
        obj_line(st, li, join_words(face_words(ids))) == (if ids.len() == 4 {
            Ok::<ObjState, super::obj::ObjError>(ObjState { quads: st.quads + fan(ids), ..st })
        } else {
            Ok::<ObjState, super::obj::ObjError>(ObjState { tris: st.tris + fan(ids), ..st })
        }),
{
    let ws = face_words(ids);
    lemma_face_words_plain(ids);
    lemma_written_line(ws);
    let t = trim(join_words(ws));
    assert(t[0] == 'f');
    assert(tokens(t)[0] =~= seq!['f']);
    assert(tokens(t).drop_first() =~= Seq::new(ids.len(), |k: int| face_ref(ids[k])));
    lemma_resolve_face_refs(ids, st.positions.len());
}

// ---------------------------------------------------------------------------
// The whole text
// ---------------------------------------------------------------------------

/// What has been read after the first `j` written lines.
pub open spec fn state_after(m: ObjMeshView, j: int) -> ObjState {
    let k = m.positions.len() as int;
    let q = quad_count_of(m.quads) as int;
    if j <= k {
        ObjState { positions: m.positions.take(j), quads: seq![], tris: seq![] }
    } else if j <= 2 * k {
        ObjState { positions: m.positions, quads: seq![], tris: seq![] }
    } else if j <= 2 * k + q {
        ObjState { positions: m.positions, quads: m.indices.take(6 * (j - 2 * k)), tris: seq![] }
    } else {
        ObjState {
            positions: m.positions,
            quads: m.indices.take(6 * q),
            tris: m.indices.subrange(6 * q, 6 * q + 3 * (j - 2 * k - q)),
        }
    }
}

/// The blocks of written lines.
proof fn lemma_save_blocks(m: ObjMeshView, normals: Seq<VertexText>)
    requires
        round_trips(m, normals),
    ensures
        ({
            let k = m.positions.len() as int;
            let q = quad_count_of(m.quads) as int;
            let nt = (m.indices.len() / 3) as int;
            let ls = obj_save_lines(m, normals);
            &&& 2 * q <= nt
            &&& ls.len() == 2 * k + q + (nt - 2 * q)
            &&& forall|i: int|
                0 <= i < k ==> #[trigger] ls[i] == text_line(coord_words(seq!['v'], m.positions[i]))
            &&& forall|i: int|
                k <= i < 2 * k ==> #[trigger] ls[i] == text_line(
                    coord_words(seq!['v', 'n'], normals[i - k]),
                )
            &&& forall|i: int|
                2 * k <= i < 2 * k + q ==> #[trigger] ls[i] == text_line(
                    face_words(
                        seq![
                            m.indices[6 * (i - 2 * k)],
                            m.indices[6 * (i - 2 * k) + 1],
                            m.indices[6 * (i - 2 * k) + 2],
                            m.indices[6 * (i - 2 * k) + 5],
                        ],
                    ),
                )
            &&& forall|i: int|
                2 * k + q <= i < ls.len() ==> #[trigger] ls[i] == text_line(
                    face_words(
                        seq![
                            m.indices[3 * (i - 2 * k + q)],
                            m.indices[3 * (i - 2 * k + q) + 1],
                            m.indices[3 * (i - 2 * k + q) + 2],
                        ],
                    ),
                )
        }),
{
    let k = m.positions.len() as int;
    let q = quad_count_of(m.quads) as int;
    let nt = (m.indices.len() / 3) as int;
    let ls = obj_save_lines(m, normals);
    let l1 = coord_lines(seq!['v'], m.positions.take(k));
    let l2 = coord_lines(seq!['v', 'n'], normals.take(k));
    let l3 = quad_lines(m.indices, q as nat);
    let l4 = tri_lines(m.indices, 2 * q as nat, nt as nat);
    assert(ls == l1 + l2 + l3 + l4);
    assert(2 * q <= nt);
    assert forall|i: int| 0 <= i < k implies #[trigger] ls[i] == text_line(
        coord_words(seq!['v'], m.positions[i]),
    ) by {
        assert(ls[i] == l1[i]);
        assert(m.positions.take(k)[i] == m.positions[i]);
    }
    assert forall|i: int| k <= i < 2 * k implies #[trigger] ls[i] == text_line(
        coord_words(seq!['v', 'n'], normals[i - k]),
    ) by {
        assert(ls[i] == l2[i - k]);
        assert(normals.take(k)[i - k] == normals[i - k]);
    }
    assert forall|i: int| 2 * k <= i < 2 * k + q implies #[trigger] ls[i] == text_line(
        face_words(
            seq![
                m.indices[6 * (i - 2 * k)],
                m.indices[6 * (i - 2 * k) + 1],
                m.indices[6 * (i - 2 * k) + 2],
                m.indices[6 * (i - 2 * k) + 5],
            ],
        ),
    ) by {
        assert(ls[i] == l3[i - 2 * k]);
    }
    assert forall|i: int| 2 * k + q <= i < ls.len() implies #[trigger] ls[i] == text_line(
        face_words(
            seq![
                m.indices[3 * (i - 2 * k + q)],
                m.indices[3 * (i - 2 * k + q) + 1],
                m.indices[3 * (i - 2 * k + q) + 2],
            ],
        ),
    ) by {
        assert(ls[i] == l4[i - 2 * k - q]);
        assert(i - 2 * k - q + 2 * q == i - 2 * k + q);
    }
}

/// A written line ends with its only line feed.
pub open spec fn line_shaped(l: Seq<char>) -> bool {
    l.len() > 0 && l.last() == '\n' && forall|c: int| 0 <= c < l.len() - 1 ==> l[c] != '\n'
}

proof fn lemma_step_vertex(m: ObjMeshView, normals: Seq<VertexText>, i: int)
    requires
        round_trips(m, normals),
        0 <= i < m.positions.len(),
    ensures
        line_shaped(obj_save_lines(m, normals)[i]),
        obj_line(state_after(m, i), i, obj_save_lines(m, normals)[i].drop_last()) == Ok::<
            ObjState,
            super::obj::ObjError,
        >(state_after(m, i + 1)),
{
    let k = m.positions.len() as int;
    lemma_save_blocks(m, normals);
    let ws = coord_words(seq!['v'], m.positions[i]);
    lemma_coord_words_plain(seq!['v'], m.positions[i]);
    lemma_written_line(ws);
    lemma_vertex_line(state_after(m, i), i, m.positions[i]);
    assert(m.positions.take(i).push(m.positions[i]) =~= m.positions.take(i + 1));
    if i + 1 == k {
        assert(m.positions.take(i + 1) =~= m.positions);
    }
}

proof fn lemma_step_normal(m: ObjMeshView, normals: Seq<VertexText>, i: int)
    requires
        round_trips(m, normals),
        m.positions.len() <= i < 2 * m.positions.len(),
    ensures
        line_shaped(obj_save_lines(m, normals)[i]),
        obj_line(state_after(m, i), i, obj_save_lines(m, normals)[i].drop_last()) == Ok::<
            ObjState,
            super::obj::ObjError,
        >(state_after(m, i + 1)),
{
    let k = m.positions.len() as int;
    lemma_save_blocks(m, normals);
    let ws = coord_words(seq!['v', 'n'], normals[i - k]);
    lemma_coord_words_plain(seq!['v', 'n'], normals[i - k]);
    lemma_written_line(ws);
    lemma_normal_line(state_after(m, i), i, normals[i - k]);
    if i == k {
        assert(m.positions.take(k) =~= m.positions);
    }
}

#[verifier::rlimit(40)]
proof fn lemma_step_quad(m: ObjMeshView, normals: Seq<VertexText>, i: int)
    requires
        round_trips(m, normals),
        2 * m.positions.len() <= i < 2 * m.positions.len() + quad_count_of(m.quads),
    ensures
        line_shaped(obj_save_lines(m, normals)[i]),
        obj_line(state_after(m, i), i, obj_save_lines(m, normals)[i].drop_last()) == Ok::<
            ObjState,
            super::obj::ObjError,
        >(state_after(m, i + 1)),
{
    let k = m.positions.len() as int;
    lemma_save_blocks(m, normals);
    let c = i - 2 * k;
    let ids = seq![m.indices[6 * c], m.indices[6 * c + 1], m.indices[6 * c + 2], m.indices[6 * c + 5]];
    assert(forall|x: int| 0 <= x < 4 ==> (ids[x] as nat) < k && ids[x] < u32::MAX);
    lemma_face_words_plain(ids);
    lemma_written_line(face_words(ids));
    lemma_face_line(state_after(m, i), i, ids);
    assert(m.indices[6 * c + 3] == m.indices[6 * c]);
    assert(m.indices.take(6 * c) + fan(ids) =~= m.indices.take(6 * (c + 1)));
}

#[verifier::rlimit(40)]
proof fn lemma_step_tri(m: ObjMeshView, normals: Seq<VertexText>, i: int)
    requires
        round_trips(m, normals),
        2 * m.positions.len() + quad_count_of(m.quads) <= i < obj_save_lines(m, normals).len(),
    ensures
        line_shaped(obj_save_lines(m, normals)[i]),
        obj_line(state_after(m, i), i, obj_save_lines(m, normals)[i].drop_last()) == Ok::<
            ObjState,
            super::obj::ObjError,
        >(state_after(m, i + 1)),
{
    let k = m.positions.len() as int;
    let q = quad_count_of(m.quads) as int;
    lemma_save_blocks(m, normals);
    let c = i - 2 * k - q;
    let t = c + 2 * q;
    assert(3 * t + 2 < m.indices.len());
    let ids = seq![m.indices[3 * t], m.indices[3 * t + 1], m.indices[3 * t + 2]];
    assert(forall|x: int| 0 <= x < 3 ==> (ids[x] as nat) < k && ids[x] < u32::MAX);
    lemma_face_words_plain(ids);
    lemma_written_line(face_words(ids));
    lemma_face_line(state_after(m, i), i, ids);
    if i == 2 * k + q {
        assert(m.indices.subrange(6 * q, 6 * q) =~= Seq::<u32>::empty());
    }
    assert(m.indices.subrange(6 * q, 6 * q + 3 * c) + fan(ids) =~= m.indices.subrange(
        6 * q,
        6 * q + 3 * (c + 1),
    ));
}

/// One written line read in the state of the lines before it.
proof fn lemma_read_step(m: ObjMeshView, normals: Seq<VertexText>, i: int)
    requires
        round_trips(m, normals),
        0 <= i < obj_save_lines(m, normals).len(),
    ensures
        line_shaped(obj_save_lines(m, normals)[i]),
        obj_line(state_after(m, i), i, obj_save_lines(m, normals)[i].drop_last()) == Ok::<
            ObjState,
            super::obj::ObjError,
        >(state_after(m, i + 1)),
{
    let k = m.positions.len() as int;
    let q = quad_count_of(m.quads) as int;
    if i < k {
        lemma_step_vertex(m, normals, i);
    } else if i < 2 * k {
        lemma_step_normal(m, normals, i);
    } else if i < 2 * k + q {
        lemma_step_quad(m, normals, i);
    } else {
        lemma_step_tri(m, normals, i);
    }
}

proof fn lemma_read_written(
    m: ObjMeshView,
    normals: Seq<VertexText>,
    bodies: Seq<Seq<char>>,
    j: int,
)
    requires
        round_trips(m, normals),
        bodies == Seq::new(obj_save_lines(m, normals).len(), |i: int| obj_save_lines(m, normals)[i].drop_last()),
        0 <= j <= bodies.len(),
    ensures
        obj_lines(bodies, j) == Ok::<ObjState, super::obj::ObjError>(state_after(m, j)),
    decreases j,
{
    if j == 0 {
        assert(m.positions.take(0) =~= Seq::<VertexText>::empty());
    } else {
        lemma_read_written(m, normals, bodies, j - 1);
        lemma_read_step(m, normals, j - 1);
    }
}

/// Reading back the OBJ text that `save` writes gives the mesh that was
/// written: the same vertex texts, the same triangles in the same order and
/// the same quads.
pub proof fn lemma_save_load_roundtrip(m: ObjMeshView, normals: Seq<VertexText>)
    requires
        round_trips(m, normals),
    ensures
        obj_text(obj_save(m, normals)) == Ok::<ObjMeshView, super::obj::ObjError>(m),
        obj_file(encode_utf8(obj_save(m, normals))) == Ok::<ObjMeshView, super::obj::ObjError>(m),
{
    let k = m.positions.len() as int;
    let q = quad_count_of(m.quads) as int;
    let nt = (m.indices.len() / 3) as int;
    let ls = obj_save_lines(m, normals);
    lemma_save_blocks(m, normals);
    assert forall|i: int| 0 <= i < ls.len() implies (#[trigger] ls[i]).len() > 0
        && ls[i].last() == '\n' && forall|c: int| 0 <= c < ls[i].len() - 1 ==> ls[i][c] != '\n' by {
        lemma_read_step(m, normals, i);
    }
    lemma_split_written_lines(ls);
    let bodies = Seq::new(ls.len(), |i: int| ls[i].drop_last());
    let lines = split_lines(obj_save(m, normals));
    assert(lines == bodies.push(Seq::<char>::empty()));
    lemma_read_written(m, normals, bodies, bodies.len() as int);
    lemma_obj_lines_prefix(lines, bodies, bodies.len() as int);
    let st = state_after(m, bodies.len() as int);
    assert(obj_line(st, bodies.len() as int, Seq::<char>::empty()) == Ok::<ObjState, super::obj::ObjError>(st));
    assert(obj_lines(lines, lines.len() as int) == Ok::<ObjState, super::obj::ObjError>(st));
    assert(st.quads + st.tris =~= m.indices);
    assert(quad_layout(st.quads.len()) == m.quads);
    encode_utf8_decode_utf8(obj_save(m, normals));
    encode_utf8_valid_utf8(obj_save(m, normals));
}

proof fn lemma_obj_lines_prefix(a: Seq<Seq<char>>, b: Seq<Seq<char>>, j: int)
    requires
        0 <= j <= b.len(),
        b.len() <= a.len(),
        forall|i: int| 0 <= i < b.len() ==> a[i] == b[i],
    ensures
        obj_lines(a, j) == obj_lines(b, j),
    decreases j,
{
    if j > 0 {
        lemma_obj_lines_prefix(a, b, j - 1);
    }
}

} // verus!
