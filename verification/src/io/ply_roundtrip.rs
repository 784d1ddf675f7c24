//! Reading back what `ply::save` wrote gives the mesh that was written.
use vstd::prelude::*;
use crate::text::{decimal, is_unicode_ws, lemma_decimal_digits, parse_usize, split_lines, tokens, trim};
use super::obj::{concat, join_words, text_line};
use super::obj_roundtrip::{lemma_split_written_lines, lemma_written_line, plain_word};
use vstd::utf8::{decode_utf8, encode_utf8, encode_utf8_decode_utf8, encode_utf8_valid_utf8, is_ascii_chars, is_ascii_chars_encode_utf8, valid_utf8};
use super::num::le_value;
use super::obj::fan;
use super::stl::{le4, lemma_le4_value};
use vstd::arithmetic::power2::lemma2_to64;
use super::ply::{
    BinState, PlyMeshV, PlyScalar, PlyVertex, bin_elem, bin_elems, bin_row, bin_rows, face_row, face_rows,
    first_list, first_named, has_list, all_lists, int_value, le_u32, ply_binary, prop_indices_of,
    pushed_face, raw_at, resolve_face_index, row_size, triple_bytes, type_size, vertex_row, vertex_rows, xyz,
    ply_file, ply_save, PlyLoadV, vertex_word, face_word, ascii_bytes, end_header_key, header_end,
    header_end_at, key_at, lemma_header_end_unique, line_end, add_prop, header_line, header_lines,
    ply_header, property_line, save_header, starts_with, type_named, ElemV, Header, PlyErr, PlyFormat,
    PlyType, PropV,
};

verus! {

pub open spec fn float_prop_line(n: Seq<char>) -> Seq<Seq<char>> {
    seq![seq!['p', 'r', 'o', 'p', 'e', 'r', 't', 'y'], seq!['f', 'l', 'o', 'a', 't'], n]
}

/// The words of the lines of a written header.
pub open spec fn header_words(nv: nat, nt: nat) -> Seq<Seq<Seq<char>>> {
    seq![
        seq![seq!['p', 'l', 'y']],
        seq![
            seq!['f', 'o', 'r', 'm', 'a', 't'],
            seq!['b', 'i', 'n', 'a', 'r', 'y', '_', 'l', 'i', 't', 't', 'l', 'e', '_', 'e', 'n', 'd', 'i', 'a', 'n'],
            seq!['1', '.', '0'],
        ],
        seq![seq!['e', 'l', 'e', 'm', 'e', 'n', 't'], seq!['v', 'e', 'r', 't', 'e', 'x'], decimal(nv)],
        float_prop_line(seq!['x']),
        float_prop_line(seq!['y']),
        float_prop_line(seq!['z']),
        float_prop_line(seq!['n', 'x']),
        float_prop_line(seq!['n', 'y']),
        float_prop_line(seq!['n', 'z']),
        seq![seq!['e', 'l', 'e', 'm', 'e', 'n', 't'], seq!['f', 'a', 'c', 'e'], decimal(nt)],
        seq![
            seq!['p', 'r', 'o', 'p', 'e', 'r', 't', 'y'],
            seq!['l', 'i', 's', 't'],
            seq!['u', 'c', 'h', 'a', 'r'],
            seq!['i', 'n', 't'],
            seq!['v', 'e', 'r', 't', 'e', 'x', '_', 'i', 'n', 'd', 'i', 'c', 'e', 's'],
        ],
        seq![seq!['e', 'n', 'd', '_', 'h', 'e', 'a', 'd', 'e', 'r']],
    ]
}

pub open spec fn header_text_lines(nv: nat, nt: nat) -> Seq<Seq<char>> {
    Seq::new(12, |i: int| text_line(header_words(nv, nt)[i]))
}

proof fn lemma_join_push(ws: Seq<Seq<char>>, w: Seq<char>)
    requires
        ws.len() > 0,
    ensures
        join_words(ws.push(w)) == join_words(ws) + seq![' '] + w,
{
    assert(ws.push(w).drop_last() =~= ws);
}

proof fn lemma_words3(a: Seq<char>, b: Seq<char>, c: Seq<char>)
    ensures
        text_line(seq![a, b, c]) == a + seq![' '] + b + seq![' '] + c + seq!['\n'],
{
    assert(join_words(seq![a]) == a);
    lemma_join_push(seq![a], b);
    assert(seq![a].push(b) =~= seq![a, b]);
    lemma_join_push(seq![a, b], c);
    assert(seq![a, b].push(c) =~= seq![a, b, c]);
}

proof fn lemma_words5(a: Seq<char>, b: Seq<char>, c: Seq<char>, d: Seq<char>, e: Seq<char>)
    ensures
        text_line(seq![a, b, c, d, e]) == a + seq![' '] + b + seq![' '] + c + seq![' '] + d + seq![' '] + e
            + seq!['\n'],
{
    assert(join_words(seq![a]) == a);
    lemma_join_push(seq![a], b);
    assert(seq![a].push(b) =~= seq![a, b]);
    lemma_join_push(seq![a, b], c);
    assert(seq![a, b].push(c) =~= seq![a, b, c]);
    lemma_join_push(seq![a, b, c], d);
    assert(seq![a, b, c].push(d) =~= seq![a, b, c, d]);
    lemma_join_push(seq![a, b, c, d], e);
    assert(seq![a, b, c, d].push(e) =~= seq![a, b, c, d, e]);
}

proof fn lemma_concat_push(ls: Seq<Seq<char>>, l: Seq<char>)
    ensures
        concat(ls.push(l)) == concat(ls) + l,
{
    assert(ls.push(l).drop_last() =~= ls);
}

proof fn lemma_concat_step(ls: Seq<Seq<char>>, j: int)
    requires
        0 <= j < ls.len(),
    ensures
        concat(ls.take(j + 1)) == concat(ls.take(j)) + ls[j],
{
    lemma_concat_push(ls.take(j), ls[j]);
    assert(ls.take(j).push(ls[j]) =~= ls.take(j + 1));
}

proof fn lemma_concat12(ls: Seq<Seq<char>>)
    requires
        ls.len() == 12,
    ensures
        concat(ls) == ls[0] + ls[1] + ls[2] + ls[3] + ls[4] + ls[5] + ls[6] + ls[7] + ls[8] + ls[9] + ls[10] + ls[11],
{
    assert(ls.take(0) =~= Seq::<Seq<char>>::empty());
    lemma_concat_step(ls, 0);
    lemma_concat_step(ls, 1);
    lemma_concat_step(ls, 2);
    lemma_concat_step(ls, 3);
    lemma_concat_step(ls, 4);
    lemma_concat_step(ls, 5);
    lemma_concat_step(ls, 6);
    lemma_concat_step(ls, 7);
    lemma_concat_step(ls, 8);
    lemma_concat_step(ls, 9);
    lemma_concat_step(ls, 10);
    lemma_concat_step(ls, 11);
    assert(Seq::<char>::empty() + ls[0] =~= ls[0]);
    assert(ls.take(12) =~= ls);
}

proof fn lemma_first_literal()
    ensures
        "ply\nformat binary_little_endian 1.0\nelement vertex "@ == text_line(header_words(0, 0)[0]) + text_line(
            header_words(0, 0)[1],
        ) + seq!['e', 'l', 'e', 'm', 'e', 'n', 't', ' ', 'v', 'e', 'r', 't', 'e', 'x', ' '],
{
    reveal_strlit("ply\nformat binary_little_endian 1.0\nelement vertex ");
    let w = header_words(0, 0);
    assert(w[0].drop_last() =~= Seq::<Seq<char>>::empty());
    lemma_words3(w[1][0], w[1][1], w[1][2]);
    assert(w[1] =~= seq![w[1][0], w[1][1], w[1][2]]);
    assert("ply\nformat binary_little_endian 1.0\nelement vertex "@ =~= text_line(w[0]) + text_line(w[1]) + seq![
        'e',
        'l',
        'e',
        'm',
        'e',
        'n',
        't',
        ' ',
        'v',
        'e',
        'r',
        't',
        'e',
        'x',
        ' ',
    ]);
}

proof fn lemma_second_literal()
    ensures
        "\nproperty float x\nproperty float y\nproperty float z\nproperty float nx\nproperty float ny\nproperty float nz\nelement face "@
            == seq!['\n'] + text_line(header_words(0, 0)[3]) + text_line(header_words(0, 0)[4]) + text_line(
            header_words(0, 0)[5],
        ) + text_line(header_words(0, 0)[6]) + text_line(header_words(0, 0)[7]) + text_line(header_words(0, 0)[8])
            + seq!['e', 'l', 'e', 'm', 'e', 'n', 't', ' ', 'f', 'a', 'c', 'e', ' '],
{
    reveal_strlit(
        "\nproperty float x\nproperty float y\nproperty float z\nproperty float nx\nproperty float ny\nproperty float nz\nelement face ",
    );
    let w = header_words(0, 0);
    let p = seq!['p', 'r', 'o', 'p', 'e', 'r', 't', 'y'];
    let f = seq!['f', 'l', 'o', 'a', 't'];
    lemma_words3(p, f, seq!['x']);
    lemma_words3(p, f, seq!['y']);
    lemma_words3(p, f, seq!['z']);
    lemma_words3(p, f, seq!['n', 'x']);
    lemma_words3(p, f, seq!['n', 'y']);
    lemma_words3(p, f, seq!['n', 'z']);
    assert("\nproperty float x\nproperty float y\nproperty float z\nproperty float nx\nproperty float ny\nproperty float nz\nelement face "@
        =~= seq!['\n'] + text_line(w[3]) + text_line(w[4]) + text_line(w[5]) + text_line(w[6]) + text_line(w[7])
        + text_line(w[8]) + seq!['e', 'l', 'e', 'm', 'e', 'n', 't', ' ', 'f', 'a', 'c', 'e', ' ']);
}

proof fn lemma_third_literal()
    ensures
        "\nproperty list uchar int vertex_indices\nend_header\n"@ == seq!['\n'] + text_line(header_words(0, 0)[10])
            + text_line(header_words(0, 0)[11]),
{
    reveal_strlit("\nproperty list uchar int vertex_indices\nend_header\n");
    let w = header_words(0, 0);
    lemma_words5(w[10][0], w[10][1], w[10][2], w[10][3], w[10][4]);
    assert(w[10] =~= seq![w[10][0], w[10][1], w[10][2], w[10][3], w[10][4]]);
    assert(w[11].drop_last() =~= Seq::<Seq<char>>::empty());
    assert("\nproperty list uchar int vertex_indices\nend_header\n"@ =~= seq!['\n'] + text_line(w[10]) + text_line(
        w[11],
    ));
}

proof fn lemma_regroup(
    x1: Seq<char>,
    ev: Seq<char>,
    d1: Seq<char>,
    nl: Seq<char>,
    m: Seq<char>,
    ef: Seq<char>,
    d2: Seq<char>,
    t10: Seq<char>,
    t11: Seq<char>,
)
    ensures
        x1 + ev + d1 + (nl + m + ef) + d2 + (nl + t10 + t11) == x1 + (ev + d1 + nl) + m + (ef + d2 + nl) + t10 + t11,
{
    assert(x1 + ev + d1 + (nl + m + ef) + d2 + (nl + t10 + t11) =~= x1 + (ev + d1 + nl) + m + (ef + d2 + nl) + t10 + t11);
}

proof fn lemma_middle(ls: Seq<Seq<char>>)
    requires
        ls.len() == 12,
    ensures
        ls[0] + ls[1] + ls[2] + ls[3] + ls[4] + ls[5] + ls[6] + ls[7] + ls[8] + ls[9] + ls[10] + ls[11] == (ls[0] + ls[1])
            + ls[2] + (ls[3] + ls[4] + ls[5] + ls[6] + ls[7] + ls[8]) + ls[9] + ls[10] + ls[11],
{
    let x = ls[0] + ls[1] + ls[2];
    assert(x + ls[3] + ls[4] + ls[5] + ls[6] + ls[7] + ls[8] =~= x + (ls[3] + ls[4] + ls[5] + ls[6] + ls[7] + ls[8]));
}

proof fn lemma_header_is_lines(nv: nat, nt: nat)
    ensures
        save_header(nv, nt) == concat(header_text_lines(nv, nt)),
{
    let w = header_words(nv, nt);
    let w0 = header_words(0, 0);
    assert forall|i: int| 0 <= i < 12 && i != 2 && i != 9 implies #[trigger] w[i] == w0[i] by {}
    lemma_first_literal();
    lemma_second_literal();
    lemma_third_literal();
    let ls = header_text_lines(nv, nt);
    lemma_concat12(ls);
    lemma_middle(ls);
    lemma_words3(w[2][0], w[2][1], w[2][2]);
    assert(w[2] =~= seq![w[2][0], w[2][1], w[2][2]]);
    lemma_words3(w[9][0], w[9][1], w[9][2]);
    assert(w[9] =~= seq![w[9][0], w[9][1], w[9][2]]);
    let ev = seq!['e', 'l', 'e', 'm', 'e', 'n', 't', ' ', 'v', 'e', 'r', 't', 'e', 'x', ' '];
    let ef = seq!['e', 'l', 'e', 'm', 'e', 'n', 't', ' ', 'f', 'a', 'c', 'e', ' '];
    let nl = seq!['\n'];
    assert(ls[2] == ev + decimal(nv) + nl) by {
        assert(w[2][0] + seq![' '] + w[2][1] + seq![' '] + decimal(nv) + nl =~= ev + decimal(nv) + nl);
    }
    assert(ls[9] == ef + decimal(nt) + nl) by {
        assert(w[9][0] + seq![' '] + w[9][1] + seq![' '] + decimal(nt) + nl =~= ef + decimal(nt) + nl);
    }
    let m = ls[3] + ls[4] + ls[5] + ls[6] + ls[7] + ls[8];
    assert(ls[0] == text_line(w0[0]) && ls[1] == text_line(w0[1]) && ls[10] == text_line(w0[10]) && ls[11] == text_line(
        w0[11],
    ));
    assert(m == text_line(w0[3]) + text_line(w0[4]) + text_line(w0[5]) + text_line(w0[6]) + text_line(w0[7])
        + text_line(w0[8]));
    lemma_regroup(ls[0] + ls[1], ev, decimal(nv), nl, m, ef, decimal(nt), ls[10], ls[11]);
}

/// A word of letters, digits, `_` and `.`.
proof fn lemma_plain_literal(w: Seq<char>)
    requires
        w.len() > 0,
        forall|i: int|
            0 <= i < w.len() ==> ('a' <= #[trigger] w[i] <= 'z') || ('0' <= w[i] <= '9') || w[i] == '_' || w[i] == '.',
    ensures
        plain_word(w),
{
    assert forall|i: int| 0 <= i < w.len() implies !is_unicode_ws(#[trigger] w[i]) by {
        broadcast use vstd::utf8::char_u32_cast;
    }
}

proof fn lemma_plain_decimal(n: nat)
    ensures
        plain_word(decimal(n)),
{
    lemma_decimal_digits(n);
}

proof fn lemma_header_words_plain(nv: nat, nt: nat)
    ensures
        forall|i: int, j: int|
            0 <= i < 12 && 0 <= j < header_words(nv, nt)[i].len() ==> plain_word(#[trigger] header_words(nv, nt)[i][j]),
        forall|i: int| 0 <= i < 12 ==> #[trigger] header_words(nv, nt)[i].len() > 0,
{
    let w = header_words(nv, nt);
    lemma_plain_decimal(nv);
    lemma_plain_decimal(nt);
    assert forall|i: int, j: int| 0 <= i < 12 && 0 <= j < w[i].len() implies plain_word(#[trigger] w[i][j]) by {
        if !((i == 2 || i == 9) && j == 2) {
            lemma_plain_literal(w[i][j]);
        }
    }
}

/// The lines of a written header, and the empty piece after its last line
/// feed.
proof fn lemma_header_split(nv: nat, nt: nat)
    ensures
        split_lines(save_header(nv, nt)) == Seq::new(12, |i: int| join_words(header_words(nv, nt)[i])).push(
            Seq::<char>::empty(),
        ),
        forall|i: int|
            0 <= i < 12 ==> trim(#[trigger] join_words(header_words(nv, nt)[i])) == join_words(header_words(nv, nt)[i])
                && tokens(join_words(header_words(nv, nt)[i])) == header_words(nv, nt)[i] && join_words(
                header_words(nv, nt)[i],
            )[0] == header_words(nv, nt)[i][0][0],
{
    let w = header_words(nv, nt);
    let ls = header_text_lines(nv, nt);
    lemma_header_words_plain(nv, nt);
    assert forall|i: int| 0 <= i < 12 implies trim(#[trigger] join_words(w[i])) == join_words(w[i]) && tokens(
        join_words(w[i]),
    ) == w[i] && join_words(w[i])[0] == w[i][0][0] && ls[i].len() > 0 && ls[i].last() == '\n' && (forall|k: int|
        0 <= k < ls[i].len() - 1 ==> ls[i][k] != '\n') && ls[i].drop_last() == join_words(w[i]) by {
        lemma_written_line(w[i]);
    }
    lemma_split_written_lines(ls);
    lemma_header_is_lines(nv, nt);
    assert(Seq::new(ls.len(), |i: int| ls[i].drop_last()) =~= Seq::new(12, |i: int| join_words(w[i])));
}

pub open spec fn float_prop(n: Seq<char>) -> PropV {
    PropV { ty: PlyType::Float, name: n, list_count: None }
}

pub open spec fn vertex_props() -> Seq<PropV> {
    seq![
        float_prop(seq!['x']),
        float_prop(seq!['y']),
        float_prop(seq!['z']),
        float_prop(seq!['n', 'x']),
        float_prop(seq!['n', 'y']),
        float_prop(seq!['n', 'z']),
    ]
}

pub open spec fn index_list_prop() -> PropV {
    PropV {
        ty: PlyType::Int,
        name: seq!['v', 'e', 'r', 't', 'e', 'x', '_', 'i', 'n', 'd', 'i', 'c', 'e', 's'],
        list_count: Some(PlyType::UChar),
    }
}

/// The elements a written header declares.
pub open spec fn saved_elems(nv: usize, nt: usize) -> Seq<ElemV> {
    seq![
        ElemV { name: seq!['v', 'e', 'r', 't', 'e', 'x'], count: nv, props: vertex_props() },
        ElemV { name: seq!['f', 'a', 'c', 'e'], count: nt, props: seq![index_list_prop()] },
    ]
}

proof fn lemma_parse_usize_decimal(n: usize)
    ensures
        parse_usize(decimal(n as nat)) == Some(n),
{
    lemma_decimal_digits(n as nat);
}

/// A written header line is read by its words.
proof fn lemma_line_words(h: Header, ws: Seq<Seq<char>>, t: Seq<char>)
    requires
        t == join_words(ws),
        trim(t) == t,
        tokens(t) == ws,
        t.len() > 0,
        t[0] == ws[0][0],
        ws[0][0] != '#' && ws[0][0] != 'c',
    ensures
        header_line(h, t) == ({
            let toks = ws;
            if toks.len() == 0 {
                Ok(h)
            } else if toks[0] == seq!['f', 'o', 'r', 'm', 'a', 't'] {
                if toks.len() > 1 && toks[1] == seq!['a', 's', 'c', 'i', 'i'] {
                    Ok(Header { format: Some(PlyFormat::Ascii), ..h })
                } else if toks.len() > 1 && toks[1] == seq![
                    'b', 'i', 'n', 'a', 'r', 'y', '_', 'l', 'i', 't', 't', 'l', 'e', '_', 'e', 'n', 'd', 'i', 'a', 'n'
                ] {
                    Ok(Header { format: Some(PlyFormat::BinaryLe), ..h })
                } else if toks.len() > 1 && toks[1] == seq![
                    'b', 'i', 'n', 'a', 'r', 'y', '_', 'b', 'i', 'g', '_', 'e', 'n', 'd', 'i', 'a', 'n'
                ] {
                    Err(PlyErr::BigEndian)
                } else {
                    Err(PlyErr::InvalidFormat)
                }
            } else if toks[0] == seq!['e', 'l', 'e', 'm', 'e', 'n', 't'] {
                if toks.len() < 2 {
                    Err(PlyErr::ElementWithoutName)
                } else if toks.len() < 3 || parse_usize(toks[2]) is None {
                    Err(PlyErr::ElementWithoutCount)
                } else {
                    Ok(
                        Header {
                            elems: h.elems.push(
                                ElemV { name: toks[1], count: parse_usize(toks[2]).unwrap(), props: seq![] },
                            ),
                            ..h
                        },
                    )
                }
            } else if toks[0] == seq!['p', 'r', 'o', 'p', 'e', 'r', 't', 'y'] {
                property_line(h, toks.drop_first())
            } else {
                Ok(h)
            }
        }),
{
    let comment = seq!['c', 'o', 'm', 'm', 'e', 'n', 't'];
    if starts_with(t, comment) {
        assert(t.take(7)[0] == t[0]);
    }
}

proof fn lemma_float_line(h: Header, n: Seq<char>)
    requires
        h.elems.len() > 0,
    ensures
        property_line(h, float_prop_line(n).drop_first()) == Ok::<Header, PlyErr>(add_prop(h, float_prop(n))),
{
    let rest = float_prop_line(n).drop_first();
    assert(rest =~= seq![seq!['f', 'l', 'o', 'a', 't'], n]);
    assert(rest[0] != seq!['l', 'i', 's', 't']);
    assert(type_named(seq!['f', 'l', 'o', 'a', 't']) == Some(PlyType::Float));
}

proof fn lemma_list_line(h: Header, rest: Seq<Seq<char>>)
    requires
        h.elems.len() > 0,
        rest == seq![
            seq!['l', 'i', 's', 't'],
            seq!['u', 'c', 'h', 'a', 'r'],
            seq!['i', 'n', 't'],
            seq!['v', 'e', 'r', 't', 'e', 'x', '_', 'i', 'n', 'd', 'i', 'c', 'e', 's'],
        ],
    ensures
        property_line(h, rest) == Ok::<Header, PlyErr>(add_prop(h, index_list_prop())),
{
    assert(type_named(seq!['u', 'c', 'h', 'a', 'r']) == Some(PlyType::UChar));
    let iw = seq!['i', 'n', 't'];
    assert(iw.len() == 3);
    assert(iw != seq!['c', 'h', 'a', 'r'] && iw != seq!['i', 'n', 't', '8']);
    assert(iw != seq!['u', 'c', 'h', 'a', 'r'] && iw != seq!['u', 'i', 'n', 't', '8']);
    assert(iw != seq!['s', 'h', 'o', 'r', 't'] && iw != seq!['i', 'n', 't', '1', '6']);
    assert(iw != seq!['u', 's', 'h', 'o', 'r', 't'] && iw != seq!['u', 'i', 'n', 't', '1', '6']);
    assert(iw =~= seq!['i', 'n', 't']);
    assert(type_named(iw) == Some(PlyType::Int));
    assert(rest.skip(3) =~= seq![seq!['v', 'e', 'r', 't', 'e', 'x', '_', 'i', 'n', 'd', 'i', 'c', 'e', 's']]);
}

pub open spec fn vertex_elem(nv: usize, k: int) -> ElemV {
    ElemV { name: seq!['v', 'e', 'r', 't', 'e', 'x'], count: nv, props: vertex_props().take(k) }
}

/// The header read after the first `k` lines of a written header.
pub open spec fn header_after(nv: usize, nt: usize, k: int) -> Header {
    if k <= 1 {
        Header { format: None, elems: seq![] }
    } else if k == 2 {
        Header { format: Some(PlyFormat::BinaryLe), elems: seq![] }
    } else if k <= 9 {
        Header { format: Some(PlyFormat::BinaryLe), elems: seq![vertex_elem(nv, k - 3)] }
    } else if k == 10 {
        Header {
            format: Some(PlyFormat::BinaryLe),
            elems: seq![vertex_elem(nv, 6), ElemV { name: seq!['f', 'a', 'c', 'e'], count: nt, props: seq![] }],
        }
    } else {
        Header { format: Some(PlyFormat::BinaryLe), elems: saved_elems(nv, nt) }
    }
}

proof fn lemma_header_step(nv: usize, nt: usize, k: int)
    requires
        1 <= k < 13,
        header_lines(split_lines(save_header(nv as nat, nt as nat)), k) == Ok::<Header, PlyErr>(header_after(nv, nt, k)),
    ensures
        header_lines(split_lines(save_header(nv as nat, nt as nat)), k + 1) == Ok::<Header, PlyErr>(
            header_after(nv, nt, k + 1),
        ),
{
    let lines = split_lines(save_header(nv as nat, nt as nat));
    let w = header_words(nv as nat, nt as nat);
    lemma_header_split(nv as nat, nt as nat);
    let h = header_after(nv, nt, k);
    assert(header_lines(lines, k + 1) == header_line(h, lines[k]));
    if k == 12 {
        assert(lines[12] == Seq::<char>::empty());
        assert(trim(Seq::<char>::empty()) =~= Seq::<char>::empty());
        assert(header_after(nv, nt, 13) == h);
    } else {
        let t = lines[k];
        assert(t == join_words(w[k]));
        lemma_header_words_plain(nv as nat, nt as nat);
        assert(plain_word(w[k][0]));
        lemma_line_words(h, w[k], t);
        if k == 1 {
            assert(header_line(h, t) == Ok::<Header, PlyErr>(header_after(nv, nt, 2)));
        } else if k == 2 {
            lemma_parse_usize_decimal(nv);
            assert(header_line(h, t) == Ok::<Header, PlyErr>(header_after(nv, nt, 3))) by {
                assert(vertex_props().take(0) =~= Seq::<PropV>::empty());
            }
        } else if 3 <= k <= 8 {
            let n = w[k][2];
            assert(w[k] == float_prop_line(n));
            lemma_float_line(h, n);
            assert(vertex_props().take(k - 2) =~= vertex_props().take(k - 3).push(float_prop(n)));
            assert(add_prop(h, float_prop(n)).elems =~= seq![vertex_elem(nv, k - 2)]);
            assert(w[k][0] == seq!['p', 'r', 'o', 'p', 'e', 'r', 't', 'y']);
            assert(header_line(h, t) == property_line(h, w[k].drop_first()));
            assert(add_prop(h, float_prop(n)) == header_after(nv, nt, k + 1));
        } else if k == 9 {
            lemma_parse_usize_decimal(nt);
            assert(w[k][1] == seq!['f', 'a', 'c', 'e']);
            assert(h.elems.push(ElemV { name: w[k][1], count: nt, props: seq![] }) =~= header_after(nv, nt, 10).elems);
            assert(header_line(h, t) == Ok::<Header, PlyErr>(header_after(nv, nt, 10)));
        } else if k == 10 {
            assert(w[10].drop_first() =~= seq![
                seq!['l', 'i', 's', 't'],
                seq!['u', 'c', 'h', 'a', 'r'],
                seq!['i', 'n', 't'],
                seq!['v', 'e', 'r', 't', 'e', 'x', '_', 'i', 'n', 'd', 'i', 'c', 'e', 's'],
            ]);
            lemma_list_line(h, w[10].drop_first());
            assert(add_prop(h, index_list_prop()).elems =~= saved_elems(nv, nt)) by {
                assert(vertex_props().take(6) =~= vertex_props());
            }
            assert(header_line(h, t) == Ok::<Header, PlyErr>(header_after(nv, nt, 11)));
        } else {
            assert(k == 11);
            assert(header_line(h, t) == Ok::<Header, PlyErr>(header_after(nv, nt, 12)));
        }
    }
}

/// A written header declares a binary body of the written vertices and
/// faces.
proof fn lemma_header_parse(nv: usize, nt: usize)
    ensures
        ply_header(save_header(nv as nat, nt as nat)) == Ok::<(PlyFormat, Seq<ElemV>), PlyErr>(
            (PlyFormat::BinaryLe, saved_elems(nv, nt)),
        ),
{
    let lines = split_lines(save_header(nv as nat, nt as nat));
    let w = header_words(nv as nat, nt as nat);
    lemma_header_split(nv as nat, nt as nat);
    assert(lines[0] == join_words(w[0]));
    assert(join_words(w[0]) == seq!['p', 'l', 'y']);
    assert(header_lines(lines, 1) == Ok::<Header, PlyErr>(header_after(nv, nt, 1)));
    lemma_header_step(nv, nt, 1);
    lemma_header_step(nv, nt, 2);
    lemma_header_step(nv, nt, 3);
    lemma_header_step(nv, nt, 4);
    lemma_header_step(nv, nt, 5);
    lemma_header_step(nv, nt, 6);
    lemma_header_step(nv, nt, 7);
    lemma_header_step(nv, nt, 8);
    lemma_header_step(nv, nt, 9);
    lemma_header_step(nv, nt, 10);
    lemma_header_step(nv, nt, 11);
    lemma_header_step(nv, nt, 12);
    assert(lines.len() == 13);
}

pub open spec fn lit1() -> Seq<char> {
    "ply\nformat binary_little_endian 1.0\nelement vertex "@
}

pub open spec fn lit2() -> Seq<char> {
    "\nproperty float x\nproperty float y\nproperty float z\nproperty float nx\nproperty float ny\nproperty float nz\nelement face "@
}

pub open spec fn lit3() -> Seq<char> {
    "\nproperty list uchar int vertex_indices\nend_header\n"@
}

proof fn lemma_literal_facts()
    ensures
        lit1().len() == 51,
        forall|q: int| 0 <= q < 51 && #[trigger] lit1()[q] == '_' ==> (q == 17 && lit1()[18] == 'l') || (q == 24 && lit1()[25] == 'e'),
        forall|q: int| 0 <= q < 51 ==> '\0' <= #[trigger] lit1()[q] <= '\u{7f}',
        forall|q: int| 0 <= q < lit2().len() ==> #[trigger] lit2()[q] != '_' && '\0' <= lit2()[q] <= '\u{7f}',
        lit3().len() == 51,
        forall|q: int| 0 <= q < 51 && #[trigger] lit3()[q] == '_' ==> (q == 31 && lit3()[32] == 'i') || q == 43,
        forall|q: int| 0 <= q < 51 ==> '\0' <= #[trigger] lit3()[q] <= '\u{7f}',
        lit3().subrange(40, 51) == seq!['e', 'n', 'd', '_', 'h', 'e', 'a', 'd', 'e', 'r', '\n'],
{
    reveal_strlit("ply\nformat binary_little_endian 1.0\nelement vertex ");
    reveal_strlit(
        "\nproperty float x\nproperty float y\nproperty float z\nproperty float nx\nproperty float ny\nproperty float nz\nelement face ",
    );
    reveal_strlit("\nproperty list uchar int vertex_indices\nend_header\n");
    assert(lit3().subrange(40, 51) =~= seq!['e', 'n', 'd', '_', 'h', 'e', 'a', 'd', 'e', 'r', '\n']);
}

proof fn lemma_decimal_ascii(n: nat)
    ensures
        forall|q: int| 0 <= q < decimal(n).len() ==> '0' <= #[trigger] decimal(n)[q] <= '9',
{
    lemma_decimal_digits(n);
}

/// The characters of a written header, region by region.
proof fn lemma_header_char(nv: nat, nt: nat, q: int)
    requires
        0 <= q < save_header(nv, nt).len(),
    ensures
        save_header(nv, nt).len() == 102 + decimal(nv).len() + lit2().len() + decimal(nt).len(),
        q < 51 ==> save_header(nv, nt)[q] == lit1()[q],
        51 <= q < 51 + decimal(nv).len() ==> '0' <= save_header(nv, nt)[q] <= '9',
        51 + decimal(nv).len() <= q < 51 + decimal(nv).len() + lit2().len() ==> save_header(nv, nt)[q] == lit2()[q - 51
            - decimal(nv).len()],
        51 + decimal(nv).len() + lit2().len() <= q < 51 + decimal(nv).len() + lit2().len() + decimal(nt).len() ==> '0'
            <= save_header(nv, nt)[q] <= '9',
        51 + decimal(nv).len() + lit2().len() + decimal(nt).len() <= q ==> save_header(nv, nt)[q] == lit3()[q - 51
            - decimal(nv).len() - lit2().len() - decimal(nt).len()],
{
    lemma_literal_facts();
    lemma_decimal_ascii(nv);
    lemma_decimal_ascii(nt);
    let d1 = decimal(nv);
    let d2 = decimal(nt);
    let h = save_header(nv, nt);
    assert(h == lit1() + d1 + lit2() + d2 + lit3());
    if 51 <= q < 51 + d1.len() {
        assert(h[q] == d1[q - 51]);
    }
    if 51 + d1.len() + lit2().len() <= q < 51 + d1.len() + lit2().len() + d2.len() {
        assert(h[q] == d2[q - 51 - d1.len() - lit2().len()]);
    }
}

proof fn lemma_header_ascii(nv: nat, nt: nat)
    ensures
        is_ascii_chars(save_header(nv, nt)),
        ascii_bytes(save_header(nv, nt)) == encode_utf8(save_header(nv, nt)),
        valid_utf8(ascii_bytes(save_header(nv, nt))),
        decode_utf8(ascii_bytes(save_header(nv, nt))) == save_header(nv, nt),
{
    let h = save_header(nv, nt);
    lemma_literal_facts();
    assert forall|q: int| 0 <= q < h.len() implies '\0' <= #[trigger] h[q] <= '\u{7f}' by {
        lemma_header_char(nv, nt, q);
        if 51 + decimal(nv).len() <= q < 51 + decimal(nv).len() + lit2().len() {
            assert(lit2()[q - 51 - decimal(nv).len()] != '_');
        }
    }
    is_ascii_chars_encode_utf8(h);
    assert forall|q: int| 0 <= q < h.len() implies #[trigger] ascii_bytes(h)[q] == encode_utf8(h)[q] by {
        broadcast use vstd::utf8::char_u32_cast;
        assert(h[q] as u8 == encode_utf8(h)[q]);
    }
    assert(ascii_bytes(h) =~= encode_utf8(h));
    encode_utf8_valid_utf8(h);
    encode_utf8_decode_utf8(h);
}

/// No `end_header` starts before the last line of a written header.
proof fn lemma_no_early_key(nv: nat, nt: nat, b: Seq<u8>, i: int)
    requires
        b.len() >= save_header(nv, nt).len(),
        b.subrange(0, save_header(nv, nt).len() as int) == ascii_bytes(save_header(nv, nt)),
        0 <= i < save_header(nv, nt).len() - 11,
    ensures
        !key_at(b, i),
{
    let h = save_header(nv, nt);
    lemma_literal_facts();
    lemma_header_ascii(nv, nt);
    if key_at(b, i) {
        let q = i + 3;
        assert(b.subrange(i, i + 10)[3] == 0x5Fu8);
        assert(b.subrange(i, i + 10)[4] == 0x68u8);
        assert(b[q] == 0x5Fu8 && b[q + 1] == 0x68u8);
        assert(b[q] == ascii_bytes(h)[q]) by {
            assert(b.subrange(0, h.len() as int)[q] == b[q]);
        }
        assert(b[q + 1] == ascii_bytes(h)[q + 1]) by {
            assert(b.subrange(0, h.len() as int)[q + 1] == b[q + 1]);
        }
        lemma_header_char(nv, nt, q);
        lemma_header_char(nv, nt, q + 1);
        broadcast use vstd::utf8::char_u32_cast;
        assert(h[q] == '_' && h[q + 1] == 'h') by {
            assert('\0' <= h[q] <= '\u{7f}');
            assert('\0' <= h[q + 1] <= '\u{7f}');
        }
        let s3 = 51 + decimal(nv).len() + lit2().len() + decimal(nt).len();
        if q >= s3 {
            assert(lit3()[q - s3] == '_');
        } else if 51 <= q {
            if 51 + decimal(nv).len() <= q < 51 + decimal(nv).len() + lit2().len() {
                assert(lit2()[q - 51 - decimal(nv).len()] != '_');
            }
        } else {
            assert(lit1()[q] == '_');
        }
    }
}

/// A written file's header ends after its `end_header` line.
proof fn lemma_header_end(nv: nat, nt: nat, b: Seq<u8>)
    requires
        b.len() >= save_header(nv, nt).len(),
        save_header(nv, nt).len() <= usize::MAX,
        b.subrange(0, save_header(nv, nt).len() as int) == ascii_bytes(save_header(nv, nt)),
    ensures
        header_end(b) == Ok::<usize, PlyErr>(save_header(nv, nt).len() as usize),
{
    let h = save_header(nv, nt);
    let n = h.len() as int;
    lemma_literal_facts();
    lemma_header_ascii(nv, nt);
    let s3 = 51 + decimal(nv).len() + lit2().len() + decimal(nt).len();
    assert(n == s3 + 51) by {
        lemma_header_char(nv, nt, 0);
    }
    let i = n - 11;
    assert forall|k: int| 0 <= k < 11 implies #[trigger] b[i + k] == (seq!['e', 'n', 'd', '_', 'h', 'e', 'a', 'd', 'e', 'r', '\n'][k] as u32) as u8 by {
        lemma_header_char(nv, nt, i + k);
        assert(lit3()[40 + k] == lit3().subrange(40, 51)[k]);
        assert(b.subrange(0, n)[i + k] == b[i + k]);
    }
    assert(b.subrange(i, i + 10) =~= end_header_key()) by {
        broadcast use vstd::utf8::char_u32_cast;
        assert forall|k: int| 0 <= k < 10 implies b.subrange(i, i + 10)[k] == end_header_key()[k] by {
            assert(b[i + k] == (seq!['e', 'n', 'd', '_', 'h', 'e', 'a', 'd', 'e', 'r', '\n'][k] as u32) as u8);
        }
    }
    assert(key_at(b, i));
    assert forall|i2: int| 0 <= i2 < i implies !key_at(b, i2) by {
        lemma_no_early_key(nv, nt, b, i2);
    }
    assert(b[n - 1] == 10) by {
        assert(b[i + 10] == ('\n' as u32) as u8);
    }
    assert(line_end(b, i + 10, n));
    assert(header_end_at(b, n));
    assert(header_end_at(b, (n as usize) as int));
    let j = choose|j: usize| header_end_at(b, j as int);
    lemma_header_end_unique(b, j as int, n);
}

// ---------------------------------------------------------------------------
// The body
// ---------------------------------------------------------------------------

/// A vertex read back: its coordinates as `float` properties.
pub open spec fn float_vertex(p: [u32; 3]) -> PlyVertex {
    PlyVertex {
        x: PlyScalar { ty: PlyType::Float, raw: p[0] as u64 },
        y: PlyScalar { ty: PlyType::Float, raw: p[1] as u64 },
        z: PlyScalar { ty: PlyType::Float, raw: p[2] as u64 },
    }
}

pub open spec fn read_positions(pos: Seq<[u32; 3]>) -> Seq<PlyVertex> {
    Seq::new(pos.len(), |r: int| float_vertex(pos[r]))
}

proof fn lemma_le_u32_value(v: u32)
    ensures
        le_value(le_u32(v)) == v,
        le_u32(v).len() == 4,
{
    assert(le_u32(v) == le4(v));
    lemma_le4_value(v);
}

proof fn lemma_vertex_rows_layout(pos: Seq<[u32; 3]>, nor: Seq<[u32; 3]>, k: int)
    requires
        0 <= k <= pos.len(),
        k <= nor.len(),
    ensures
        vertex_rows(pos, nor, k).len() == 24 * k,
        forall|r: int, q: int|
            0 <= r < k && 0 <= q < 3 ==> #[trigger] vertex_rows(pos, nor, k).subrange(24 * r + 4 * q, 24 * r + 4 * q + 4)
                == le_u32(pos[r][q]),
    decreases k,
{
    if k > 0 {
        lemma_vertex_rows_layout(pos, nor, k - 1);
        let prev = vertex_rows(pos, nor, k - 1);
        let cur = vertex_rows(pos, nor, k);
        let p = pos[k - 1];
        assert(triple_bytes(p).len() == 12 && triple_bytes(nor[k - 1]).len() == 12) by {
            lemma_le_u32_value(p[0]);
            lemma_le_u32_value(p[1]);
            lemma_le_u32_value(p[2]);
            lemma_le_u32_value(nor[k - 1][0]);
            lemma_le_u32_value(nor[k - 1][1]);
            lemma_le_u32_value(nor[k - 1][2]);
        }
        assert forall|r: int, q: int| 0 <= r < k && 0 <= q < 3 implies #[trigger] cur.subrange(24 * r + 4 * q, 24 * r + 4 * q + 4)
            == le_u32(pos[r][q]) by {
            if r < k - 1 {
                assert(cur.subrange(24 * r + 4 * q, 24 * r + 4 * q + 4) =~= prev.subrange(24 * r + 4 * q, 24 * r + 4 * q + 4));
            } else {
                lemma_le_u32_value(p[0]);
                lemma_le_u32_value(p[1]);
                lemma_le_u32_value(p[2]);
                assert(cur.subrange(24 * r + 4 * q, 24 * r + 4 * q + 4) =~= le_u32(p[q]));
            }
        }
    }
}

/// The bytes of face `s`: the count 3 and its three indices.
pub open spec fn face_bytes(ind: Seq<u32>, s: int) -> Seq<u8> {
    seq![3u8] + le_u32(ind[3 * s]) + le_u32(ind[3 * s + 1]) + le_u32(ind[3 * s + 2])
}

proof fn lemma_face_rows_layout(ind: Seq<u32>, t: int)
    requires
        0 <= t <= ind.len() / 3,
    ensures
        face_rows(ind, t).len() == 13 * t,
        forall|s: int| 0 <= s < t ==> #[trigger] face_rows(ind, t).subrange(13 * s, 13 * s + 13) == face_bytes(ind, s),
    decreases t,
{
    if t > 0 {
        lemma_face_rows_layout(ind, t - 1);
        let prev = face_rows(ind, t - 1);
        let cur = face_rows(ind, t);
        lemma_le_u32_value(ind[3 * t - 3]);
        lemma_le_u32_value(ind[3 * t - 2]);
        lemma_le_u32_value(ind[3 * t - 1]);
        assert(cur == prev + face_bytes(ind, t - 1)) by {
            assert(3 * (t - 1) == 3 * t - 3);
            assert(prev + seq![3u8] + le_u32(ind[3 * t - 3]) + le_u32(ind[3 * t - 2]) + le_u32(ind[3 * t - 1]) =~= prev
                + face_bytes(ind, t - 1));
        }
        assert forall|s: int| 0 <= s < t implies #[trigger] cur.subrange(13 * s, 13 * s + 13) == face_bytes(ind, s) by {
            if s < t - 1 {
                assert(cur.subrange(13 * s, 13 * s + 13) =~= prev.subrange(13 * s, 13 * s + 13));
            } else {
                assert(cur.subrange(13 * s, 13 * s + 13) =~= face_bytes(ind, s));
            }
        }
    }
}

proof fn lemma_vertex_props_facts()
    ensures
        prop_indices_of(vertex_props(), xyz(), vertex_word()) == Ok::<Seq<int>, PlyErr>(seq![0int, 1, 2]),
        !has_list(vertex_props()),
        forall|q: int| 0 <= q <= 6 ==> #[trigger] row_size(vertex_props(), q) == 4 * q,
{
    let p = vertex_props();
    assert(first_named(p, seq!['x']) == Some(0int));
    assert(p.drop_first()[0].name == seq!['y']);
    assert(first_named(p.drop_first(), seq!['y']) == Some(0int));
    assert(first_named(p, seq!['y']) == Some(1int)) by {
        assert(p[0].name[0] != seq!['y'][0]);
    }
    assert(first_named(p.drop_first().drop_first(), seq!['z']) == Some(0int));
    assert(first_named(p.drop_first(), seq!['z']) == Some(1int)) by {
        assert(p.drop_first()[0].name[0] != seq!['z'][0]);
    }
    assert(first_named(p, seq!['z']) == Some(2int)) by {
        assert(p[0].name[0] != seq!['z'][0]);
    }
    let x = xyz();
    assert(x.drop_last().drop_last().drop_last() =~= Seq::<Seq<char>>::empty());
    assert(x.drop_last().drop_last() =~= seq![seq!['x']]);
    assert(x.drop_last() =~= seq![seq!['x'], seq!['y']]);
    assert(seq![0int].push(1).push(2) =~= seq![0int, 1, 2]);
    assert(Seq::<int>::empty().push(0) =~= seq![0int]);
    let w = vertex_word();
    assert(prop_indices_of(p, Seq::<Seq<char>>::empty(), w) == Ok::<Seq<int>, PlyErr>(Seq::<int>::empty()));
    assert(seq![seq!['x']].drop_last() =~= Seq::<Seq<char>>::empty());
    assert(prop_indices_of(p, seq![seq!['x']], w) == Ok::<Seq<int>, PlyErr>(seq![0int]));
    assert(seq![seq!['x'], seq!['y']].drop_last() =~= seq![seq!['x']]);
    assert(seq![seq!['x'], seq!['y']].last() == seq!['y']);
    assert(seq![0int].push(1) =~= seq![0int, 1]);
    assert(prop_indices_of(p, seq![seq!['x'], seq!['y']], w) == Ok::<Seq<int>, PlyErr>(seq![0int, 1]));
    assert(x.drop_last() =~= seq![seq!['x'], seq!['y']]);
    assert(x.last() == seq!['z']);
    assert(seq![0int, 1].push(2) =~= seq![0int, 1, 2]);
    assert(prop_indices_of(p, x, w) == Ok::<Seq<int>, PlyErr>(seq![0int, 1, 2]));
    assert(!has_list(p)) by {
        assert forall|i: int| 0 <= i < p.len() implies !((#[trigger] p[i]).list_count is Some) by {}
    }
    assert forall|q: int| 0 <= q <= 6 implies #[trigger] row_size(p, q) == 4 * q by {
        reveal_with_fuel(row_size, 7);
    }
}

/// The first `k` vertex rows read back.
proof fn lemma_read_vertices(data: Seq<u8>, pos: Seq<[u32; 3]>, nor: Seq<[u32; 3]>, nv: usize, nt: usize, k: int)
    requires
        nv == pos.len(),
        nv <= nor.len(),
        0 <= k <= nv,
        data.len() >= 24 * nv,
        data.subrange(0, 24 * nv as int) == vertex_rows(pos, nor, nv as int),
    ensures
        bin_rows(data, BinState { pos: 0, positions: seq![], indices: seq![] }, saved_elems(nv, nt)[0], k) == Ok::<
            BinState,
            PlyErr,
        >(BinState { pos: 24 * k, positions: read_positions(pos).take(k), indices: seq![] }),
    decreases k,
{
    let e = saved_elems(nv, nt)[0];
    if k == 0 {
        assert(read_positions(pos).take(0) =~= Seq::<PlyVertex>::empty());
    } else {
        lemma_read_vertices(data, pos, nor, nv, nt, k - 1);
        lemma_vertex_props_facts();
        lemma_vertex_rows_layout(pos, nor, nv as int);
        let r = k - 1;
        let st = BinState { pos: 24 * r, positions: read_positions(pos).take(r), indices: seq![] };
        let v = vertex_rows(pos, nor, nv as int);
        assert forall|q: int| 0 <= q < 3 implies #[trigger] raw_at(data, 24 * r + row_size(e.props, q), PlyType::Float)
            == pos[r][q] by {
            assert(data.subrange(24 * r + 4 * q, 24 * r + 4 * q + 4) =~= v.subrange(24 * r + 4 * q, 24 * r + 4 * q + 4));
            lemma_le_u32_value(pos[r][q]);
        }
        assert(e.props == vertex_props());
        assert(e.name == vertex_word());
        assert(vertex_row(data, 24 * r, e.props, seq![0int, 1, 2]) == Ok::<(PlyVertex, int), PlyErr>(
            (float_vertex(pos[r]), 24 * r + 24),
        ));
        assert(read_positions(pos).take(r).push(float_vertex(pos[r])) =~= read_positions(pos).take(k));
        assert(bin_row(data, st, e) == Ok::<BinState, PlyErr>(
            BinState { pos: 24 * k, positions: read_positions(pos).take(k), indices: seq![] },
        ));
    }
}

proof fn lemma_face_row_bytes(data: Seq<u8>, ind: Seq<u32>, nv: usize, nt: usize, f: int)
    requires
        nt == ind.len() / 3,
        0 <= f < nt,
        data.len() == 24 * nv + 13 * nt,
        data.subrange(24 * nv as int, data.len() as int) == face_rows(ind, nt as int),
    ensures
        data.subrange(24 * nv + 13 * f, 24 * nv + 13 * f + 13) == face_bytes(ind, f),
{
    let p = 24 * nv + 13 * f;
    lemma_face_rows_layout(ind, nt as int);
    let fr = face_rows(ind, nt as int);
    let fb = face_bytes(ind, f);
    assert(fr.subrange(13 * f, 13 * f + 13) == fb);
    assert(data.subrange(p, p + 13) =~= fr.subrange(13 * f, 13 * f + 13)) by {
        assert(13 * f + 13 <= 13 * nt) by (nonlinear_arith)
            requires
                f < nt,
        ;
        let d = data.subrange(24 * nv as int, data.len() as int);
        assert forall|j: int| 0 <= j < 13 implies #[trigger] data.subrange(p, p + 13)[j] == fr.subrange(13 * f, 13 * f + 13)[j] by {
            assert(data[p + j] == d[13 * f + j]);
        }
    }
}

proof fn lemma_face_value(b: Seq<u8>, v: u32)
    requires
        b == le_u32(v),
        v < 0x8000_0000,
    ensures
        int_value(PlyType::Int, le_value(b)) == v as i64,
{
    lemma_le_u32_value(v);
    lemma2_to64();
}

/// Face row `f` of a written body, as read.
proof fn lemma_face_row(data: Seq<u8>, ind: Seq<u32>, nv: usize, nt: usize, f: int)
    requires
        nt == ind.len() / 3,
        0 <= f < nt,
        data.len() == 24 * nv + 13 * nt,
        data.subrange(24 * nv as int, data.len() as int) == face_rows(ind, nt as int),
        forall|k: int| 0 <= k < 3 * nt ==> #[trigger] ind[k] < nv && ind[k] < 0x8000_0000,
    ensures
        face_row(data, 24 * nv + 13 * f, index_list_prop()) == Ok::<(Seq<i64>, int), PlyErr>(
            (seq![ind[3 * f] as i64, ind[3 * f + 1] as i64, ind[3 * f + 2] as i64], 24 * nv + 13 * f + 13),
        ),
{
    let p = 24 * nv + 13 * f;
    lemma_face_row_bytes(data, ind, nv, nt, f);
    let fb = face_bytes(ind, f);
    let row = data.subrange(p, p + 13);
    assert(3 * f + 2 < 3 * nt);
    lemma_le_u32_value(ind[3 * f]);
    lemma_le_u32_value(ind[3 * f + 1]);
    lemma_le_u32_value(ind[3 * f + 2]);
    assert(data.subrange(p, p + 1) =~= seq![3u8]) by {
        assert(data[p] == row[0]);
    }
    assert(raw_at(data, p, PlyType::UChar) == 3) by {
        assert(type_size(PlyType::UChar) == 1);
        let one = data.subrange(p, p + 1);
        assert(one =~= seq![3u8]);
        assert(one.drop_first() =~= Seq::<u8>::empty());
        assert(le_value(one.drop_first()) == 0);
        assert(le_value(one) == 3);
    }
    assert forall|k: int| 0 <= k < 3 implies #[trigger] int_value(PlyType::Int, raw_at(data, p + 1 + k * 4, PlyType::Int))
        == ind[3 * f + k] as i64 by {
        let sub = data.subrange(p + 1 + k * 4, p + 1 + k * 4 + 4);
        assert(sub =~= row.subrange(1 + k * 4, 5 + k * 4));
        assert(row.subrange(1 + k * 4, 5 + k * 4) =~= le_u32(ind[3 * f + k])) by {
            assert(fb.subrange(1 + k * 4, 5 + k * 4) =~= le_u32(ind[3 * f + k]));
        }
        lemma_face_value(sub, ind[3 * f + k]);
    }
    let face = Seq::new(3, |k: int| int_value(PlyType::Int, raw_at(data, p + 1 + k * 4, PlyType::Int)));
    assert(face =~= seq![ind[3 * f] as i64, ind[3 * f + 1] as i64, ind[3 * f + 2] as i64]);
}

proof fn lemma_push_face(ind: Seq<u32>, nv: usize, f: int)
    requires
        0 <= f,
        3 * f + 2 < ind.len(),
        ind[3 * f] < nv && ind[3 * f + 1] < nv && ind[3 * f + 2] < nv,
    ensures
        pushed_face(seq![ind[3 * f] as i64, ind[3 * f + 1] as i64, ind[3 * f + 2] as i64], ind.take(3 * f), nv as nat)
            == Ok::<Seq<u32>, PlyErr>(ind.take(3 * f + 3)),
{
    let face = seq![ind[3 * f] as i64, ind[3 * f + 1] as i64, ind[3 * f + 2] as i64];
    assert forall|k: int| 0 <= k < 3 implies resolve_face_index(#[trigger] face[k], nv as nat) == Some(ind[3 * f + k]) by {}
    let res = Seq::new(3, |k: int| resolve_face_index(face[k], nv as nat).unwrap());
    assert(res =~= seq![ind[3 * f], ind[3 * f + 1], ind[3 * f + 2]]);
    assert(fan(res) =~= res);
    assert(ind.take(3 * f) + res =~= ind.take(3 * f + 3));
}

/// The first `s` face rows read back, after the vertices `verts`.
proof fn lemma_read_faces(data: Seq<u8>, ind: Seq<u32>, verts: Seq<PlyVertex>, nv: usize, nt: usize, s: int)
    requires
        nt == ind.len() / 3,
        verts.len() == nv,
        0 <= s <= nt,
        data.len() == 24 * nv + 13 * nt,
        data.subrange(24 * nv as int, data.len() as int) == face_rows(ind, nt as int),
        forall|k: int| 0 <= k < 3 * nt ==> #[trigger] ind[k] < nv && ind[k] < 0x8000_0000,
    ensures
        bin_rows(data, BinState { pos: 24 * nv, positions: verts, indices: seq![] }, saved_elems(nv, nt)[1], s) == Ok::<
            BinState,
            PlyErr,
        >(BinState { pos: 24 * nv + 13 * s, positions: verts, indices: ind.take(3 * s) }),
    decreases s,
{
    let e = saved_elems(nv, nt)[1];
    if s == 0 {
        assert(ind.take(0) =~= Seq::<u32>::empty());
    } else {
        lemma_read_faces(data, ind, verts, nv, nt, s - 1);
        let f = s - 1;
        let p = 24 * nv + 13 * f;
        let st = BinState { pos: p, positions: verts, indices: ind.take(3 * f) };
        lemma_face_row(data, ind, nv, nt, f);
        assert(e.name == face_word());
        assert(e.name != vertex_word());
        let lp = index_list_prop();
        assert(first_list(e.props) == Some(0int));
        assert(e.props[0] == lp);
        assert(3 * f + 2 < 3 * nt);
        assert(ind[3 * f] < nv && ind[3 * f + 1] < nv && ind[3 * f + 2] < nv);
        lemma_push_face(ind, nv, f);
        assert(bin_row(data, st, e) == Ok::<BinState, PlyErr>(
            BinState { pos: 24 * nv + 13 * s, positions: verts, indices: ind.take(3 * s) },
        ));
    }
}

/// A written body reads back as the written mesh.
proof fn lemma_read_body(data: Seq<u8>, pos: Seq<[u32; 3]>, nor: Seq<[u32; 3]>, ind: Seq<u32>, nv: usize, nt: usize)
    requires
        nv == pos.len(),
        nv <= nor.len(),
        nv > 0,
        nt == ind.len() / 3,
        nt > 0,
        data.len() == 24 * nv + 13 * nt,
        data.subrange(0, 24 * nv as int) == vertex_rows(pos, nor, nv as int),
        data.subrange(24 * nv as int, data.len() as int) == face_rows(ind, nt as int),
        forall|k: int| 0 <= k < 3 * nt ==> #[trigger] ind[k] < nv && ind[k] < 0x8000_0000,
    ensures
        ply_binary(data, saved_elems(nv, nt)) == Ok::<PlyMeshV, PlyErr>(
            PlyMeshV { positions: read_positions(pos), indices: ind.take(3 * nt as int) },
        ),
{
    lemma_read_vertices(data, pos, nor, nv, nt, nv as int);
    let verts = read_positions(pos).take(nv as int);
    assert(verts =~= read_positions(pos));
    lemma_read_faces(data, ind, verts, nv, nt, nt as int);
    let elems = saved_elems(nv, nt);
    lemma_vertex_props_facts();
    let s0 = BinState { pos: 0, positions: seq![], indices: seq![] };
    let s1 = BinState { pos: 24 * nv, positions: verts, indices: seq![] };
    let s2 = BinState { pos: 24 * nv + 13 * nt, positions: verts, indices: ind.take(3 * nt as int) };
    assert(bin_elems(data, elems, 0) == Ok::<BinState, PlyErr>(s0));
    assert(elems[0].name == vertex_word());
    assert(bin_elem(data, s0, elems[0]) == Ok::<BinState, PlyErr>(s1));
    assert(bin_elems(data, elems, 1) == Ok::<BinState, PlyErr>(s1));
    let e = elems[1];
    assert(e.name == face_word());
    assert(e.name != vertex_word());
    assert(first_list(e.props) == Some(0int));
    assert(all_lists(e.props));
    assert(bin_elem(data, s1, e) == Ok::<BinState, PlyErr>(s2));
    assert(bin_elems(data, elems, 2) == Ok::<BinState, PlyErr>(s2));
    assert(ind.take(3 * nt as int).len() == 3 * nt);
}

/// Loading what `save` wrote gives back the written positions, read as
/// floats, and the written triangles, when there is at least one of each,
/// every position has a normal, and every index names a position.
pub proof fn lemma_ply_save_load_roundtrip(pos: Seq<[u32; 3]>, nor: Seq<[u32; 3]>, ind: Seq<u32>)
    requires
        pos.len() > 0,
        pos.len() <= nor.len(),
        ind.len() >= 3,
        ply_save(pos, nor, ind).len() <= usize::MAX,
        forall|k: int| 0 <= k < 3 * (ind.len() / 3) ==> #[trigger] ind[k] < pos.len() && ind[k] < 0x8000_0000,
    ensures
        ply_file(ply_save(pos, nor, ind)) == Ok::<PlyLoadV, PlyErr>(
            PlyLoadV::Mesh(PlyMeshV { positions: read_positions(pos), indices: ind.take(3 * (ind.len() / 3) as int) }),
        ),
{
    let ntn = ind.len() / 3;
    let b = ply_save(pos, nor, ind);
    let h = save_header(pos.len(), ntn);
    let hb = ascii_bytes(h);
    let vr = vertex_rows(pos, nor, pos.len() as int);
    let fr = face_rows(ind, ntn as int);
    lemma_vertex_rows_layout(pos, nor, pos.len() as int);
    lemma_face_rows_layout(ind, ntn as int);
    assert(b == hb + vr + fr);
    let hlen = h.len();
    assert(hb.len() == hlen);
    assert(b.subrange(0, hlen as int) =~= hb);
    lemma_header_end(pos.len(), ntn, b);
    let nv = pos.len() as usize;
    let nt = ntn as usize;
    assert(nv as nat == pos.len() && nt as nat == ntn);
    lemma_header_ascii(pos.len(), ntn);
    lemma_header_parse(nv, nt);
    let data = b.subrange(hlen as int, b.len() as int);
    assert(data =~= vr + fr);
    assert(data.subrange(0, 24 * nv as int) =~= vr);
    assert(data.subrange(24 * nv as int, data.len() as int) =~= fr);
    lemma_read_body(data, pos, nor, ind, nv, nt);
}

} // verus!
