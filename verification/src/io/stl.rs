//! STL: binary files (an 80-byte header, a facet count, 50-byte facets) and
//! ASCII files (`vertex x y z` lines) in, binary files out. Coordinates stay
//! IEEE 754 bit patterns in binary files and decimal text in ASCII files.
use vstd::prelude::*;
use vstd::utf8::*;
use super::num::le_value;
use crate::numbering::{first_uses, position_of};
use crate::text::{decode_utf8_chars, is_float_literal, is_float_literal_exec, lower, lower_eq, lower_eq_exec, lower_is, split_lines, split_lines_exec, tokens, tokens_exec, trim, trim_chars};

use std::collections::HashMap;
use rayon::slice::ParallelSlice;
use rayon::iter::{IndexedParallelIterator, ParallelIterator};
use vstd::arithmetic::div_mod::lemma_fundamental_div_mod_converse;

verus! {

broadcast use vstd::std_specs::hash::group_hash_axioms;

/// Why an STL file was refused. Line numbers count from 1.
#[derive(Clone, Debug)]
pub enum StlError {
    /// Neither a binary STL nor UTF-8 text.
    NotText,
    /// Text without the word `facet`.
    NotStl,
    /// A `vertex` line with fewer than three coordinates.
    MissingCoordinate(usize),
    /// A coordinate that is no float: the line and the text.
    InvalidFloat(usize, Vec<char>),
    /// No vertices, or a number of them that is no multiple of three.
    NoTriangles,
    /// A binary facet with an infinite or NaN coordinate.
    NonFinite,
}

pub enum StlErr {
    NotText,
    NotStl,
    MissingCoordinate(usize),
    InvalidFloat(usize, Seq<char>),
    NoTriangles,
    NonFinite,
}

impl View for StlError {
    type V = StlErr;

    open spec fn view(&self) -> StlErr {
        match self {
            StlError::NotText => StlErr::NotText,
            StlError::NotStl => StlErr::NotStl,
            StlError::MissingCoordinate(l) => StlErr::MissingCoordinate(*l),
            StlError::InvalidFloat(l, t) => StlErr::InvalidFloat(*l, t@),
            StlError::NoTriangles => StlErr::NoTriangles,
            StlError::NonFinite => StlErr::NonFinite,
        }
    }
}

/// The corners of the triangles of an STL file, three per triangle.
pub enum StlLoad {
    /// From a binary file: the bit patterns of the `f32` coordinates.
    Binary(Vec<[u32; 3]>),
    /// From an ASCII file: the coordinate texts, three per corner.
    Ascii(Vec<Vec<char>>),
}

pub enum StlLoadV {
    Binary(Seq<[u32; 3]>),
    Ascii(Seq<Seq<char>>),
}

impl View for StlLoad {
    type V = StlLoadV;

    open spec fn view(&self) -> StlLoadV {
        match self {
            StlLoad::Binary(c) => StlLoadV::Binary(c@),
            StlLoad::Ascii(t) => StlLoadV::Ascii(t.deep_view()),
        }
    }
}

// ---------------------------------------------------------------------------
// Binary files
// ---------------------------------------------------------------------------

/// The facet count of a binary file: the little-endian `u32` after the header.
pub open spec fn facet_count(b: Seq<u8>) -> nat {
    le_value(b.subrange(80, 84))
}

/// A file is read as binary when its length is exactly that of its header,
/// count and facets.
pub open spec fn is_binary(b: Seq<u8>) -> bool {
    b.len() >= 84 && facet_count(b) * 50 + 84 == b.len()
}

/// The bit pattern of coordinate `j` of corner `k` of facet `f` (the facet's
/// normal comes first and is skipped).
pub open spec fn coord_bits(b: Seq<u8>, f: int, k: int, j: int) -> u32 {
    let at = 84 + 50 * f + 12 + 12 * k + 4 * j;
    le_value(b.subrange(at, at + 4)) as u32
}

/// The corners of a binary file, three per facet.
pub open spec fn binary_corners(b: Seq<u8>) -> Seq<[u32; 3]> {
    Seq::new(
        3 * facet_count(b),
        |c: int| [coord_bits(b, c / 3, c % 3, 0), coord_bits(b, c / 3, c % 3, 1), coord_bits(b, c / 3, c % 3, 2)],
    )
}

/// An `f32` bit pattern of a finite value: its exponent is not all ones.
pub open spec fn is_finite_bits(x: u32) -> bool {
    (x / 0x80_0000) % 0x100 != 0xff
}

pub open spec fn finite_corner(p: [u32; 3]) -> bool {
    is_finite_bits(p[0]) && is_finite_bits(p[1]) && is_finite_bits(p[2])
}

pub open spec fn stl_binary(b: Seq<u8>) -> Result<StlLoadV, StlErr> {
    let c = binary_corners(b);
    if forall|i: int| 0 <= i < c.len() ==> finite_corner(#[trigger] c[i]) {
        Ok(StlLoadV::Binary(c))
    } else {
        Err(StlErr::NonFinite)
    }
}

// ---------------------------------------------------------------------------
// ASCII files
// ---------------------------------------------------------------------------

pub open spec fn facet_word() -> Seq<char> {
    seq!['f', 'a', 'c', 'e', 't']
}

pub open spec fn vertex_word() -> Seq<char> {
    seq!['v', 'e', 'r', 't', 'e', 'x']
}

/// The lower-cased text holds the word `facet`.
pub open spec fn mentions_facet(t: Seq<char>) -> bool {
    exists|i: int| 0 <= i && i + 5 <= t.len() && lower_eq(#[trigger] t.subrange(i, i + 5), facet_word())
}

/// The first problem among coordinates `j..=3` of a `vertex` line.
pub open spec fn coord_problem(toks: Seq<Seq<char>>, line_no: usize, j: int) -> Option<StlErr>
    decreases 4 - j,
{
    if j > 3 || j < 1 {
        None
    } else if j >= toks.len() {
        Some(StlErr::MissingCoordinate(line_no))
    } else if !is_float_literal(toks[j]) {
        Some(StlErr::InvalidFloat(line_no, toks[j]))
    } else {
        coord_problem(toks, line_no, j + 1)
    }
}

/// Line `li` (from 0) read into the coordinate texts `acc`.
pub open spec fn stl_line(acc: Seq<Seq<char>>, li: int, line: Seq<char>) -> Result<Seq<Seq<char>>, StlErr> {
    let toks = tokens(trim(line));
    if toks.len() == 0 || !lower_eq(toks[0], vertex_word()) {
        Ok(acc)
    } else {
        match coord_problem(toks, (li + 1) as usize, 1) {
            Some(e) => Err(e),
            None => Ok(acc + toks.subrange(1, 4)),
        }
    }
}

/// The first `k` lines.
pub open spec fn stl_lines(lines: Seq<Seq<char>>, k: int) -> Result<Seq<Seq<char>>, StlErr>
    decreases k,
{
    if k <= 0 {
        Ok(Seq::empty())
    } else {
        match stl_lines(lines, k - 1) {
            Err(e) => Err(e),
            Ok(acc) => stl_line(acc, k - 1, lines[k - 1]),
        }
    }
}

pub open spec fn stl_ascii(text: Seq<char>) -> Result<StlLoadV, StlErr> {
    if !mentions_facet(text) {
        Err(StlErr::NotStl)
    } else {
        let lines = split_lines(text);
        match stl_lines(lines, lines.len() as int) {
            Err(e) => Err(e),
            Ok(c) => if c.len() == 0 || c.len() % 9 != 0 {
                Err(StlErr::NoTriangles)
            } else {
                Ok(StlLoadV::Ascii(c))
            },
        }
    }
}

/// What an STL file holds: a binary file when its length fits its facet
/// count, else UTF-8 text.
pub open spec fn stl_file(b: Seq<u8>) -> Result<StlLoadV, StlErr> {
    if is_binary(b) {
        stl_binary(b)
    } else if !valid_utf8(b) {
        Err(StlErr::NotText)
    } else {
        stl_ascii(decode_utf8(b))
    }
}

// ---------------------------------------------------------------------------
// Reading
// ---------------------------------------------------------------------------

/// `res` is `Ok` with a value whose view is `ok`, or the error `err`.
pub open spec fn stl_result_matches(res: Result<StlLoad, StlError>, spec: Result<StlLoadV, StlErr>) -> bool {
    match spec {
        Ok(v) => res matches Ok(r) && r@ == v,
        Err(e) => res matches Err(re) && re@ == e,
    }
}

pub(crate) proof fn lemma_le4(s: Seq<u8>)
    requires
        s.len() == 4,
    ensures
        le_value(s) == s[0] + 256 * (s[1] + 256 * (s[2] + 256 * s[3] as nat)),
{
    let s1 = s.drop_first();
    let s2 = s1.drop_first();
    let s3 = s2.drop_first();
    let s4 = s3.drop_first();
    assert(s4.len() == 0);
    assert(le_value(s4) == 0);
    assert(le_value(s3) == s[3] as nat);
    assert(le_value(s2) == s[2] + 256 * s[3] as nat);
    assert(le_value(s1) == s[1] + 256 * (s[2] + 256 * s[3] as nat));
}

/// The little-endian `u32` at `at`.
fn le_u32(b: &[u8], at: usize) -> (v: u32)
    requires
        at + 4 <= b@.len(),
    ensures
        v as nat == le_value(b@.subrange(at as int, at + 4)),
{
    proof {
        lemma_le4(b@.subrange(at as int, at + 4));
    }
    let (b0, b1, b2, b3) = (b[at] as u32, b[at + 1] as u32, b[at + 2] as u32, b[at + 3] as u32);
    b0 + 256 * (b1 + 256 * (b2 + 256 * b3))
}

fn finite_bits(x: u32) -> (r: bool)
    ensures
        r == is_finite_bits(x),
{
    assert(((x >> 23u32) & 0xffu32 == 0xffu32) == ((x / 0x80_0000) % 0x100 == 0xff)) by (bit_vector);
    (x >> 23u32) & 0xffu32 != 0xffu32
}

/// Coordinate `j` of corner `k` of a facet's bytes (its normal first).
pub open spec fn facet_coord(facet: Seq<u8>, k: int, j: int) -> u32 {
    le_value(facet.subrange(12 + 12 * k + 4 * j, 16 + 12 * k + 4 * j)) as u32
}

/// The three corners of a 50-byte facet (the normal before them is
/// skipped).
pub(crate) fn facet_corners(facet: &[u8]) -> (r: [[u32; 3]; 3])
    requires
        facet@.len() >= 48,
    ensures
        forall|k: int, j: int| 0 <= k < 3 && 0 <= j < 3 ==> #[trigger] r[k][j] == facet_coord(facet@, k, j),
{
    let mut r = [[0u32; 3]; 3];
    let mut k: usize = 0;
    while k < 3
        invariant
            facet@.len() >= 48,
            k <= 3,
            forall|k2: int, j: int| 0 <= k2 < k && 0 <= j < 3 ==> #[trigger] r[k2][j] == facet_coord(facet@, k2, j),
        decreases 3 - k,
    {
        let at = 12 + 12 * k;
        let p = [le_u32(facet, at), le_u32(facet, at + 4), le_u32(facet, at + 8)];
        r[k] = p;
        k += 1;
    }
    r
}

/// `rayon`'s `par_chunks_exact` over the 50-byte facets after the 84-byte
/// header, the first `n` of them, each decoded by `facet_corners`, and
/// `flat_map_iter` / `collect`: rayon's indexed iterators keep the order of
/// the chunks and `flat_map_iter` that of each facet's corners, so the
/// corners come three per facet in file order.
#[verifier::external_body]
fn par_facet_corners(bytes: &[u8], n: usize) -> (r: Vec<[u32; 3]>)
    requires
        84 + 50 * n <= bytes@.len(),
    ensures
        r@.len() == 3 * n,
        forall|c: int, j: int| 0 <= c < 3 * n && 0 <= j < 3 ==> #[trigger] r@[c][j] == facet_coord(
            bytes@.subrange(84 + 50 * (c / 3), 134 + 50 * (c / 3)),
            c % 3,
            j,
        ),
{
    bytes[84..].par_chunks_exact(50).take(n).flat_map_iter(|facet| facet_corners(facet)).collect()
}

fn load_binary(bytes: &[u8], n: usize) -> (r: Result<StlLoad, StlError>)
    requires
        is_binary(bytes@),
        n == facet_count(bytes@),
    ensures
        stl_result_matches(r, stl_binary(bytes@)),
{
    let ghost all = binary_corners(bytes@);
    assert(84 + 50 * n <= bytes@.len());
    let corners = par_facet_corners(bytes, n);
    proof {
        assert forall|c: int| 0 <= c < 3 * n implies #[trigger] corners@[c] == all[c] by {
            let f = c / 3;
            let k = c % 3;
            assert(0 <= f < n && 0 <= k < 3) by (nonlinear_arith)
                requires
                    0 <= c < 3 * n,
                    f == c / 3,
                    k == c % 3,
            ;
            assert(84 + 50 * f + 50 <= bytes@.len()) by (nonlinear_arith)
                requires
                    0 <= f < n,
                    84 + 50 * n <= bytes@.len(),
            ;
            let fb = bytes@.subrange(84 + 50 * f, 134 + 50 * f);
            assert forall|j: int| 0 <= j < 3 implies corners@[c][j] == coord_bits(bytes@, f, k, j) by {
                let o = 12 + 12 * k + 4 * j;
                assert(fb.subrange(o, o + 4) =~= bytes@.subrange(84 + 50 * f + o, 84 + 50 * f + o + 4));
            }
            assert(corners@[c] =~= all[c]);
        }
        assert(corners@ =~= all);
    }
    let mut i: usize = 0;
    while i < corners.len()
        invariant
            corners@ == all,
            all == binary_corners(bytes@),
            i <= corners@.len(),
            forall|q: int| 0 <= q < i ==> finite_corner(#[trigger] all[q]),
        decreases corners@.len() - i,
    {
        let p = corners[i];
        if !(finite_bits(p[0]) && finite_bits(p[1]) && finite_bits(p[2])) {
            assert(!finite_corner(all[i as int]));
            return Err(StlError::NonFinite);
        }
        i += 1;
    }
    Ok(StlLoad::Binary(corners))
}

/// Whether the lower-cased text holds the word `facet`.
fn mentions_facet_exec(t: &[char]) -> (r: bool)
    ensures
        r == mentions_facet(t@),
{
    let w = ['f', 'a', 'c', 'e', 't'];
    assert(w@ =~= facet_word());
    if t.len() < 5 {
        return false;
    }
    let tl = t.len();
    let mut i: usize = 0;
    while i <= tl - 5
        invariant
            tl == t@.len(),
            t@.len() >= 5,
            w@ == facet_word(),
            i <= t@.len() - 4,
            forall|j: int| 0 <= j < i ==> !lower_eq(#[trigger] t@.subrange(j, j + 5), facet_word()),
        decreases t@.len() - i,
    {
        let mut j: usize = 0;
        let mut same = true;
        while j < 5
            invariant
                tl == t@.len(),
                i + 5 <= t@.len(),
                j <= 5,
                w@ == facet_word(),
                same == forall|k: int| 0 <= k < j ==> lower(#[trigger] t@[i + k]) == facet_word()[k],
            decreases 5 - j,
        {
            if !lower_is(t[i + j], w[j]) {
                same = false;
            }
            j += 1;
        }
        proof {
            let sub = t@.subrange(i as int, i + 5);
            assert forall|k: int| 0 <= k < 5 implies #[trigger] sub[k] == t@[i + k] by {}
            if same {
                assert forall|k: int| 0 <= k < sub.len() implies lower(#[trigger] sub[k]) == facet_word()[k] by {
                    assert(lower(t@[i + k]) == facet_word()[k]);
                }
            } else {
                let k = choose|k: int| 0 <= k < 5 && lower(#[trigger] t@[i + k]) != facet_word()[k];
                assert(lower(sub[k]) != facet_word()[k]);
            }
            assert(same == lower_eq(sub, facet_word()));
        }
        if same {
            return true;
        }
        i += 1;
    }
    false
}

/// Reads line `li` (from 0) into the coordinate texts.
fn read_stl_line(acc: &mut Vec<Vec<char>>, li: usize, line: &[char]) -> (r: Result<(), StlError>)
    requires
        li < usize::MAX,
    ensures
        match stl_line(old(acc).deep_view(), li as int, line@) {
            Ok(a) => r is Ok && final(acc).deep_view() == a,
            Err(e) => r matches Err(x) && x@ == e,
        },
{
    let t = trim_chars(line);
    let toks = tokens_exec(&t);
    let ghost tv = toks.deep_view();
    assert(forall|i: int| 0 <= i < toks@.len() ==> #[trigger] toks@[i]@ == tv[i]);
    let kw = ['v', 'e', 'r', 't', 'e', 'x'];
    assert(kw@ =~= vertex_word());
    if toks.len() == 0 || !lower_eq_exec(&toks[0], 0, &kw) {
        proof {
            if toks.len() > 0 {
                assert(toks@[0]@.skip(0) =~= toks@[0]@);
            }
        }
        return Ok(());
    }
    assert(toks@[0]@.skip(0) =~= toks@[0]@);
    let line_no = li + 1;
    let mut j: usize = 1;
    while j <= 3
        invariant
            1 <= j <= 4,
            tv == toks.deep_view(),
            tv == tokens(trim(line@)),
            tv.len() > 0 && lower_eq(tv[0], vertex_word()),
            forall|i: int| 0 <= i < toks@.len() ==> #[trigger] toks@[i]@ == tv[i],
            line_no == li + 1,
            coord_problem(tv, line_no, 1) == coord_problem(tv, line_no, j as int),
            j > 1 ==> toks@.len() >= j,
        decreases 4 - j,
    {
        if j >= toks.len() {
            assert(coord_problem(tv, line_no, j as int) == Some(StlErr::MissingCoordinate(line_no)));
            return Err(StlError::MissingCoordinate(line_no));
        }
        if !is_float_literal_exec(&toks[j]) {
            let bad = toks[j].clone();
            assert(bad@ == tv[j as int]);
            assert(coord_problem(tv, line_no, j as int) == Some(StlErr::InvalidFloat(line_no, tv[j as int])));
            return Err(StlError::InvalidFloat(line_no, bad));
        }
        j += 1;
    }
    assert(coord_problem(tv, line_no, 4) is None);
    let ghost before = acc.deep_view();
    acc.push(toks[1].clone());
    acc.push(toks[2].clone());
    acc.push(toks[3].clone());
    assert(acc.deep_view() =~= before + tv.subrange(1, 4));
    Ok(())
}

proof fn lemma_stl_lines_err(lines: Seq<Seq<char>>, k: int)
    requires
        0 <= k <= lines.len(),
        stl_lines(lines, k) is Err,
    ensures
        stl_lines(lines, lines.len() as int) == stl_lines(lines, k),
    decreases lines.len() - k,
{
    if k < lines.len() {
        lemma_stl_lines_err(lines, k + 1);
    }
}

fn load_ascii(bytes: &[u8]) -> (r: Result<StlLoad, StlError>)
    ensures
        stl_result_matches(
            r,
            if !valid_utf8(bytes@) {
                Err(StlErr::NotText)
            } else {
                stl_ascii(decode_utf8(bytes@))
            },
        ),
{
    let text = match decode_utf8_chars(bytes) {
        None => return Err(StlError::NotText),
        Some(t) => t,
    };
    if !mentions_facet_exec(&text) {
        return Err(StlError::NotStl);
    }
    let lines = split_lines_exec(&text);
    let ghost lv = lines.deep_view();
    assert(forall|i: int| 0 <= i < lines@.len() ==> #[trigger] lines@[i]@ == lv[i]);
    let mut acc: Vec<Vec<char>> = Vec::new();
    assert(acc.deep_view() =~= Seq::<Seq<char>>::empty());
    let mut li: usize = 0;
    while li < lines.len()
        invariant
            li <= lines@.len(),
            lv == lines.deep_view(),
            lv == split_lines(text@),
            text@ == decode_utf8(bytes@),
            valid_utf8(bytes@),
            mentions_facet(text@),
            forall|i: int| 0 <= i < lines@.len() ==> #[trigger] lines@[i]@ == lv[i],
            stl_lines(lv, li as int) == Ok::<Seq<Seq<char>>, StlErr>(acc.deep_view()),
        decreases lines@.len() - li,
    {
        match read_stl_line(&mut acc, li, &lines[li]) {
            Err(e) => {
                proof {
                    lemma_stl_lines_err(lv, li as int + 1);
                }
                return Err(e);
            },
            Ok(()) => {},
        }
        li += 1;
    }
    if acc.len() == 0 || acc.len() % 9 != 0 {
        return Err(StlError::NoTriangles);
    }
    Ok(StlLoad::Ascii(acc))
}

/// Reads an STL file: binary when its length is exactly that of the facets
/// its header counts, else ASCII text.
pub fn load(bytes: &[u8]) -> (r: Result<StlLoad, StlError>)
    ensures
        stl_result_matches(r, stl_file(bytes@)),
{
    if bytes.len() >= 84 {
        let n = le_u32(bytes, 80) as usize;
        if n <= (usize::MAX - 84) / 50 && n * 50 + 84 == bytes.len() {
            return load_binary(bytes, n);
        }
        assert(!is_binary(bytes@)) by {
            if n > (usize::MAX - 84) / 50 {
                assert(n * 50 + 84 > usize::MAX) by (nonlinear_arith)
                    requires
                        n > (usize::MAX - 84) / 50,
                ;
            }
        }
    }
    load_ascii(bytes)
}

// ---------------------------------------------------------------------------
// Welding corners into vertices
// ---------------------------------------------------------------------------

/// A corner as one integer: its three bit patterns side by side.
pub open spec fn corner_key(p: [u32; 3]) -> int {
    p[0] * 0x1_0000_0000_0000_0000 + p[1] * 0x1_0000_0000 + p[2]
}

proof fn lemma_corner_key_injective(p: [u32; 3], q: [u32; 3])
    requires
        corner_key(p) == corner_key(q),
    ensures
        p == q,
{
    let (a, b, c, x, y, z) = (p[0] as int, p[1] as int, p[2] as int, q[0] as int, q[1] as int, q[2] as int);
    assert(a == x && b == y && c == z) by (nonlinear_arith)
        requires
            a * 0x1_0000_0000_0000_0000 + b * 0x1_0000_0000 + c == x * 0x1_0000_0000_0000_0000 + y * 0x1_0000_0000 + z,
            0 <= a < 0x1_0000_0000,
            0 <= b < 0x1_0000_0000,
            0 <= c < 0x1_0000_0000,
            0 <= x < 0x1_0000_0000,
            0 <= y < 0x1_0000_0000,
            0 <= z < 0x1_0000_0000,
    ;
    assert(p =~= q);
}

/// Welds the corners of triangles into shared vertices: equal corners (bit
/// for bit) become one vertex, numbered in the order of first occurrence.
pub fn weld_corners(corners: &[[u32; 3]]) -> (r: (Vec<[u32; 3]>, Vec<u32>))
    requires
        corners@.len() <= u32::MAX,
    ensures
        (r.0@, r.1@) == first_uses(corners@),
{
    let mut positions: Vec<[u32; 3]> = Vec::new();
    let mut indices: Vec<u32> = Vec::new();
    let mut seen: HashMap<u128, u32> = HashMap::new();
    let mut i: usize = 0;
    while i < corners.len()
        invariant
            i <= corners@.len() <= u32::MAX,
            (positions@, indices@) == first_uses(corners@.take(i as int)),
            positions@.len() <= i,
            forall|j: int, k: int| 0 <= j < k < positions@.len() ==> positions@[j] != positions@[k],
            forall|k: u128| #[trigger] seen@.contains_key(k) <==> exists|j: int|
                0 <= j < positions@.len() && corner_key(positions@[j]) == k,
            forall|j: int| 0 <= j < positions@.len() ==> #[trigger] seen@[corner_key(positions@[j]) as u128] == j,
        decreases corners@.len() - i,
    {
        let x = corners[i];
        let key: u128 = (x[0] as u128) * 0x1_0000_0000_0000_0000u128 + (x[1] as u128) * 0x1_0000_0000u128 + x[2] as u128;
        assert(key as int == corner_key(x));
        let ghost p = positions@;
        let ghost take = corners@.take(i as int + 1);
        assert(take.drop_last() =~= corners@.take(i as int));
        assert(take.last() == x);
        match seen.get(&key) {
            Some(v) => {
                let v = *v;
                let ghost j = choose|j: int| 0 <= j < p.len() && corner_key(p[j]) == key;
                proof {
                    lemma_corner_key_injective(p[j], x);
                    assert(p.contains(x));
                    let q = position_of(p, x);
                    assert(p[q] == x);
                    assert(q == j);
                }
                indices.push(v);
            },
            None => {
                proof {
                    assert forall|j: int| 0 <= j < p.len() implies p[j] != x by {
                        if p[j] == x {
                            assert(seen@.contains_key(corner_key(p[j]) as u128));
                        }
                    }
                }
                let n = positions.len() as u32;
                let ghost old_seen = seen@;
                seen.insert(key, n);
                positions.push(x);
                indices.push(n);
                proof {
                    assert forall|k: u128| #[trigger] seen@.contains_key(k) <==> exists|j: int|
                        0 <= j < positions@.len() && corner_key(positions@[j]) == k by {
                        if k == key {
                            assert(corner_key(positions@[p.len() as int]) == k);
                        } else if seen@.contains_key(k) {
                            assert(old_seen.contains_key(k));
                            let j = choose|j: int| 0 <= j < p.len() && corner_key(p[j]) == k;
                            assert(positions@[j] == p[j]);
                        }
                        if exists|j: int| 0 <= j < positions@.len() && corner_key(positions@[j]) == k {
                            let j = choose|j: int| 0 <= j < positions@.len() && corner_key(positions@[j]) == k;
                            if j < p.len() {
                                assert(corner_key(p[j]) == k);
                            }
                        }
                    }
                    assert forall|j: int| 0 <= j < positions@.len() implies #[trigger] seen@[corner_key(positions@[j]) as u128] == j by {
                        if j < p.len() {
                            if corner_key(p[j]) == key {
                                lemma_corner_key_injective(p[j], x);
                            }
                        }
                    }
                }
            },
        }
        i += 1;
    }
    assert(corners@.take(corners@.len() as int) =~= corners@);
    (positions, indices)
}

// ---------------------------------------------------------------------------
// Writing
// ---------------------------------------------------------------------------

/// The little-endian bytes of `v`.
pub open spec fn le4(v: u32) -> Seq<u8> {
    seq![(v % 256) as u8, ((v / 256) % 256) as u8, ((v / 65536) % 256) as u8, (v / 16777216) as u8]
}

/// `ScanImprover ` in ASCII: the start of the header of a written file.
pub open spec fn name_prefix() -> Seq<u8> {
    seq![0x53u8, 0x63, 0x61, 0x6e, 0x49, 0x6d, 0x70, 0x72, 0x6f, 0x76, 0x65, 0x72, 0x20]
}

/// `mesh` in ASCII: the name written when the file has none.
pub open spec fn default_stem() -> Seq<u8> {
    seq![0x6du8, 0x65, 0x73, 0x68]
}

pub open spec fn stem_bytes(stem: Option<&[u8]>) -> Seq<u8> {
    match stem {
        Some(s) => s@,
        None => default_stem(),
    }
}

/// The 80-byte header: the prefix and the file's name, cut at 80 bytes and
/// padded with zeros.
pub open spec fn header_bytes(stem: Seq<u8>) -> Seq<u8> {
    let full = name_prefix() + stem;
    Seq::new(80, |i: int| if i < full.len() { full[i] } else { 0u8 })
}

/// One facet: twelve `f32` bit patterns (normal, then three corners), then
/// two zero bytes.
pub open spec fn facet_bytes(r: [u32; 12]) -> Seq<u8> {
    Seq::new(50, |i: int| if i < 48 { le4(r[i / 4])[i % 4] } else { 0u8 })
}

pub open spec fn facets_bytes(fs: Seq<[u32; 12]>) -> Seq<u8> {
    Seq::new(50 * fs.len(), |i: int| facet_bytes(fs[i / 50])[i % 50])
}

/// A binary STL file of the facets, named `stem` in its header.
pub open spec fn stl_save(stem: Seq<u8>, fs: Seq<[u32; 12]>) -> Seq<u8> {
    header_bytes(stem) + le4(fs.len() as u32) + facets_bytes(fs)
}

pub(crate) proof fn lemma_le4_value(v: u32)
    ensures
        le_value(le4(v)) == v,
{
    lemma_le4(le4(v));
    let w = v as int;
    assert((w % 256) + 256 * ((w / 256) % 256 + 256 * ((w / 65536) % 256 + 256 * (w / 16777216))) == w) by (nonlinear_arith)
        requires
            0 <= w < 0x1_0000_0000,
    {
        vstd::arithmetic::div_mod::lemma_fundamental_div_mod(w, 256);
        vstd::arithmetic::div_mod::lemma_fundamental_div_mod(w / 256, 256);
        vstd::arithmetic::div_mod::lemma_fundamental_div_mod(w / 65536, 256);
        vstd::arithmetic::div_mod::lemma_div_denominator(w, 256, 256);
        vstd::arithmetic::div_mod::lemma_div_denominator(w, 65536, 256);
    }
}

fn push_le4(out: &mut Vec<u8>, v: u32)
    ensures
        final(out)@ == old(out)@ + le4(v),
{
    out.push((v % 256) as u8);
    out.push(((v / 256) % 256) as u8);
    out.push(((v / 65536) % 256) as u8);
    out.push((v / 16777216) as u8);
    assert(final(out)@ =~= old(out)@ + le4(v));
}

proof fn lemma_facets_bytes_push(fs: Seq<[u32; 12]>, f: int)
    requires
        0 <= f < fs.len(),
    ensures
        facets_bytes(fs.take(f + 1)) == facets_bytes(fs.take(f)) + facet_bytes(fs[f]),
{
    let a = facets_bytes(fs.take(f + 1));
    let b = facets_bytes(fs.take(f)) + facet_bytes(fs[f]);
    assert(a.len() == b.len());
    assert forall|i: int| 0 <= i < a.len() implies a[i] == b[i] by {
        if i < 50 * f {
            lemma_fundamental_div_mod_converse(i, 50, i / 50, i % 50);
            assert(i / 50 < f) by (nonlinear_arith)
                requires
                    0 <= i < 50 * f,
            {
                vstd::arithmetic::div_mod::lemma_div_is_ordered(i, 50 * f - 1, 50);
                vstd::arithmetic::div_mod::lemma_fundamental_div_mod_converse(50 * f - 1, 50, f - 1, 49);
            }
        } else {
            lemma_fundamental_div_mod_converse(i, 50, f, i - 50 * f);
        }
    }
    assert(a =~= b);
}

/// Writes a binary STL file: the header names the file (`mesh` when it has
/// no name), then the facet count and the facets.
pub fn save(stem: Option<&[u8]>, facets: &[[u32; 12]]) -> (out: Vec<u8>)
    ensures
        out@ == stl_save(stem_bytes(stem), facets@),
{
    let mut full: Vec<u8> = vec![0x53u8, 0x63, 0x61, 0x6e, 0x49, 0x6d, 0x70, 0x72, 0x6f, 0x76, 0x65, 0x72, 0x20];
    assert(full@ =~= name_prefix());
    let name: &[u8] = match stem {
        Some(s) => s,
        None => &[0x6du8, 0x65, 0x73, 0x68],
    };
    assert(name@ =~= stem_bytes(stem));
    let mut i: usize = 0;
    while i < name.len() && full.len() < 80
        invariant
            i <= name@.len(),
            full@ == (name_prefix() + name@).take(13 + i),
        decreases name@.len() - i,
    {
        full.push(name[i]);
        i += 1;
        assert(full@ =~= (name_prefix() + name@).take(13 + i));
    }
    let ghost whole = name_prefix() + name@;
    let mut out: Vec<u8> = Vec::new();
    let mut k: usize = 0;
    while k < 80
        invariant
            k <= 80,
            whole == name_prefix() + name@,
            full@.len() <= whole.len(),
            full@ == whole.take(full@.len() as int),
            full@.len() >= 80 || full@.len() == whole.len(),
            out@ == header_bytes(name@).take(k as int),
        decreases 80 - k,
    {
        let b = if k < full.len() {
            full[k]
        } else {
            0u8
        };
        proof {
            let full_s = name_prefix() + name@;
            assert(full_s == whole);
            if k < full@.len() {
                assert(full@[k as int] == whole[k as int]);
            }
            assert(header_bytes(name@)[k as int] == b);
        }
        out.push(b);
        k += 1;
        assert(out@ =~= header_bytes(name@).take(k as int));
    }
    assert(out@ =~= header_bytes(name@));
    push_le4(&mut out, facets.len() as u32);
    let ghost head = out@;
    let mut f: usize = 0;
    assert(facets_bytes(facets@.take(0)) =~= Seq::<u8>::empty());
    while f < facets.len()
        invariant
            f <= facets@.len(),
            head == header_bytes(name@) + le4(facets@.len() as u32),
            out@ == head + facets_bytes(facets@.take(f as int)),
        decreases facets@.len() - f,
    {
        let r = facets[f];
        let ghost before = out@;
        let mut j: usize = 0;
        while j < 12
            invariant
                j <= 12,
                out@ == before + facet_bytes(r).take(4 * j),
            decreases 12 - j,
        {
            let ghost prev = out@;
            push_le4(&mut out, r[j]);
            j += 1;
            proof {
                assert forall|i: int| 4 * (j - 1) <= i < 4 * j implies #[trigger] facet_bytes(r)[i] == le4(r[j - 1])[i - 4 * (j - 1)] by {
                    lemma_fundamental_div_mod_converse(i, 4, j - 1, i - 4 * (j - 1));
                }
                assert(out@ =~= before + facet_bytes(r).take(4 * j));
            }
        }
        out.push(0);
        out.push(0);
        assert(out@ =~= before + facet_bytes(r));
        proof {
            lemma_facets_bytes_push(facets@, f as int);
        }
        f += 1;
        assert(out@ =~= head + facets_bytes(facets@.take(f as int)));
    }
    assert(facets@.take(facets@.len() as int) =~= facets@);
    out
}

/// The corners a written file holds: for each facet, its last nine bit
/// patterns, three per corner.
pub open spec fn written_corners(fs: Seq<[u32; 12]>) -> Seq<[u32; 3]> {
    Seq::new(
        3 * fs.len(),
        |c: int| [fs[c / 3][3 + 3 * (c % 3)], fs[c / 3][4 + 3 * (c % 3)], fs[c / 3][5 + 3 * (c % 3)]],
    )
}

proof fn lemma_saved_byte(stem: Seq<u8>, fs: Seq<[u32; 12]>, f: int, q: int, m: int)
    requires
        0 <= f < fs.len(),
        0 <= q < 12,
        0 <= m < 4,
    ensures
        stl_save(stem, fs)[84 + 50 * f + 4 * q + m] == le4(fs[f][q])[m],
{
    let i = 50 * f + 4 * q + m;
    assert(0 <= i < 50 * fs.len()) by (nonlinear_arith)
        requires
            0 <= f < fs.len(),
            i == 50 * f + 4 * q + m,
            0 <= 4 * q + m < 50,
    ;
    lemma_fundamental_div_mod_converse(i, 50, f, 4 * q + m);
    lemma_fundamental_div_mod_converse(4 * q + m, 4, q, m);
    assert(stl_save(stem, fs)[84 + i] == facets_bytes(fs)[i]);
}

/// What `save` writes, `load` reads back: the corners of the facets, when
/// all of their coordinates are finite.
pub proof fn lemma_save_load_roundtrip(stem: Seq<u8>, fs: Seq<[u32; 12]>)
    requires
        fs.len() <= u32::MAX,
        forall|f: int, q: int| 0 <= f < fs.len() && 3 <= q < 12 ==> is_finite_bits(#[trigger] fs[f][q]),
    ensures
        stl_file(stl_save(stem, fs)) == Ok::<StlLoadV, StlErr>(StlLoadV::Binary(written_corners(fs))),
{
    let b = stl_save(stem, fs);
    let n = fs.len();
    assert(b.subrange(80, 84) =~= le4(n as u32));
    lemma_le4_value(n as u32);
    assert(facet_count(b) == n);
    assert(is_binary(b));
    let c = binary_corners(b);
    let w = written_corners(fs);
    assert(c.len() == w.len());
    assert forall|x: int| 0 <= x < c.len() implies c[x] == w[x] by {
        let f = x / 3;
        let k = x % 3;
        assert(0 <= f < n);
        assert forall|j: int| 0 <= j < 3 implies coord_bits(b, f, k, j) == fs[f][3 + 3 * k + j] by {
            let at = 84 + 50 * f + 12 + 12 * k + 4 * j;
            let q = 3 + 3 * k + j;
            assert forall|m: int| 0 <= m < 4 implies b.subrange(at, at + 4)[m] == le4(fs[f][q])[m] by {
                lemma_saved_byte(stem, fs, f, q, m);
                assert(at + m == 84 + 50 * f + 4 * q + m);
            }
            assert(b.subrange(at, at + 4) =~= le4(fs[f][q]));
            lemma_le4_value(fs[f][q]);
        }
        assert(c[x] =~= w[x]);
    }
    assert(c =~= w);
    assert forall|x: int| 0 <= x < c.len() implies finite_corner(#[trigger] c[x]) by {
        let f = x / 3;
        let k = x % 3;
        assert(is_finite_bits(fs[f][3 + 3 * k]));
        assert(is_finite_bits(fs[f][4 + 3 * k]));
        assert(is_finite_bits(fs[f][5 + 3 * k]));
    }
}

} // verus!
