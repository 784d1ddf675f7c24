//! Stanford PLY: the header, binary little-endian bodies and ASCII bodies.
//! Vertex coordinates stay the raw values of the file; faces are fanned
//! into triangles.
use vstd::prelude::*;
use vstd::utf8::*;
use crate::text::{decimal, push_decimal, str_to_chars, decode_utf8_chars, parse_usize, parse_usize_exec, split_lines, split_lines_exec, tokens, tokens_exec, trim, trim_chars};
use super::obj::fan;
use super::num::{le_value, signed, f32_bits_as_i64, f64_bits_as_i64, f32_bits_to_i64, f64_bits_to_i64};
use vstd::arithmetic::power2::pow2;

verus! {

// ---------------------------------------------------------------------------
// Types, properties, elements
// ---------------------------------------------------------------------------

/// Scalar type of a property.
#[derive(Clone, Copy, PartialEq, Eq, Debug, Structural)]
pub enum PlyType {
    Char,
    UChar,
    Short,
    UShort,
    Int,
    UInt,
    Float,
    Double,
}

/// The type a type name of the header stands for.
pub open spec fn type_named(s: Seq<char>) -> Option<PlyType> {
    if s == seq!['c', 'h', 'a', 'r'] || s == seq!['i', 'n', 't', '8'] {
        Some(PlyType::Char)
    } else if s == seq!['u', 'c', 'h', 'a', 'r'] || s == seq!['u', 'i', 'n', 't', '8'] {
        Some(PlyType::UChar)
    } else if s == seq!['s', 'h', 'o', 'r', 't'] || s == seq!['i', 'n', 't', '1', '6'] {
        Some(PlyType::Short)
    } else if s == seq!['u', 's', 'h', 'o', 'r', 't'] || s == seq!['u', 'i', 'n', 't', '1', '6'] {
        Some(PlyType::UShort)
    } else if s == seq!['i', 'n', 't'] || s == seq!['i', 'n', 't', '3', '2'] {
        Some(PlyType::Int)
    } else if s == seq!['u', 'i', 'n', 't'] || s == seq!['u', 'i', 'n', 't', '3', '2'] {
        Some(PlyType::UInt)
    } else if s == seq!['f', 'l', 'o', 'a', 't'] || s == seq!['f', 'l', 'o', 'a', 't', '3', '2'] {
        Some(PlyType::Float)
    } else if s == seq!['d', 'o', 'u', 'b', 'l', 'e'] || s == seq!['f', 'l', 'o', 'a', 't', '6', '4'] {
        Some(PlyType::Double)
    } else {
        None
    }
}

pub open spec fn type_size(t: PlyType) -> nat {
    match t {
        PlyType::Char | PlyType::UChar => 1,
        PlyType::Short | PlyType::UShort => 2,
        PlyType::Int | PlyType::UInt | PlyType::Float => 4,
        PlyType::Double => 8,
    }
}

/// Whether `s` is the word `w`.
pub fn is_word(s: &[char], w: &[char]) -> (r: bool)
    ensures
        r == (s@ == w@),
{
    if s.len() != w.len() {
        return false;
    }
    let mut i: usize = 0;
    while i < s.len()
        invariant
            s@.len() == w@.len(),
            i <= s@.len(),
            forall|k: int| 0 <= k < i ==> s@[k] == w@[k],
        decreases s@.len() - i,
    {
        if s[i] != w[i] {
            return false;
        }
        i += 1;
    }
    assert(s@ =~= w@);
    true
}

impl PlyType {
    pub fn parse(s: &[char]) -> (r: Option<PlyType>)
        ensures
            r == type_named(s@),
    {
        if is_word(s, &['c', 'h', 'a', 'r']) || is_word(s, &['i', 'n', 't', '8']) {
            Some(PlyType::Char)
        } else if is_word(s, &['u', 'c', 'h', 'a', 'r']) || is_word(s, &['u', 'i', 'n', 't', '8']) {
            Some(PlyType::UChar)
        } else if is_word(s, &['s', 'h', 'o', 'r', 't']) || is_word(s, &['i', 'n', 't', '1', '6']) {
            Some(PlyType::Short)
        } else if is_word(s, &['u', 's', 'h', 'o', 'r', 't']) || is_word(
            s,
            &['u', 'i', 'n', 't', '1', '6'],
        ) {
            Some(PlyType::UShort)
        } else if is_word(s, &['i', 'n', 't']) || is_word(s, &['i', 'n', 't', '3', '2']) {
            Some(PlyType::Int)
        } else if is_word(s, &['u', 'i', 'n', 't']) || is_word(s, &['u', 'i', 'n', 't', '3', '2']) {
            Some(PlyType::UInt)
        } else if is_word(s, &['f', 'l', 'o', 'a', 't']) || is_word(
            s,
            &['f', 'l', 'o', 'a', 't', '3', '2'],
        ) {
            Some(PlyType::Float)
        } else if is_word(s, &['d', 'o', 'u', 'b', 'l', 'e']) || is_word(
            s,
            &['f', 'l', 'o', 'a', 't', '6', '4'],
        ) {
            Some(PlyType::Double)
        } else {
            None
        }
    }

    pub fn size(self) -> (n: usize)
        ensures
            n == type_size(self),
    {
        match self {
            PlyType::Char | PlyType::UChar => 1,
            PlyType::Short | PlyType::UShort => 2,
            PlyType::Int | PlyType::UInt | PlyType::Float => 4,
            PlyType::Double => 8,
        }
    }
}

/// A property of an element: a scalar, or a list with a count type.
#[derive(Clone, Debug)]
pub struct Prop {
    pub ty: PlyType,
    pub name: Vec<char>,
    pub list_count: Option<PlyType>,
}

pub struct PropV {
    pub ty: PlyType,
    pub name: Seq<char>,
    pub list_count: Option<PlyType>,
}

impl View for Prop {
    type V = PropV;

    open spec fn view(&self) -> PropV {
        PropV { ty: self.ty, name: self.name@, list_count: self.list_count }
    }
}

/// An element of the header: its name, how many there are, and the
/// properties of each.
#[derive(Clone, Debug)]
pub struct Elem {
    pub name: Vec<char>,
    pub count: usize,
    pub props: Vec<Prop>,
}

pub struct ElemV {
    pub name: Seq<char>,
    pub count: usize,
    pub props: Seq<PropV>,
}

pub open spec fn props_view(p: Seq<Prop>) -> Seq<PropV> {
    Seq::new(p.len(), |i: int| p[i]@)
}

impl View for Elem {
    type V = ElemV;

    open spec fn view(&self) -> ElemV {
        ElemV { name: self.name@, count: self.count, props: props_view(self.props@) }
    }
}

pub open spec fn elems_view(e: Seq<Elem>) -> Seq<ElemV> {
    Seq::new(e.len(), |i: int| e[i]@)
}

#[derive(Clone, Copy, PartialEq, Eq, Debug, Structural)]
pub enum PlyFormat {
    Ascii,
    BinaryLe,
}

/// Why a PLY file was refused.
#[derive(Clone, Debug)]
pub enum PlyError {
    NotPly,
    NoEndHeader,
    HeaderNotUtf8,
    MissingMagic,
    BigEndian,
    InvalidFormat,
    ElementWithoutName,
    ElementWithoutCount,
    PropertyOutsideElement,
    PropertyWithoutType,
    MalformedList,
    UnknownType(Vec<char>),
    PropertyWithoutName,
    NoFormat,
    /// An element lacks a property: (element, property).
    MissingProperty(Vec<char>, Vec<char>),
    Truncated,
    ListOnVertices,
    FaceWithoutList,
    ExtraFaceProperties,
    UnreasonableFaceLength,
    FaceIndexOutOfRange,
    NoMeshData,
    BodyNotUtf8,
    InvalidNumber(Vec<char>),
}

pub enum PlyErr {
    NotPly,
    NoEndHeader,
    HeaderNotUtf8,
    MissingMagic,
    BigEndian,
    InvalidFormat,
    ElementWithoutName,
    ElementWithoutCount,
    PropertyOutsideElement,
    PropertyWithoutType,
    MalformedList,
    UnknownType(Seq<char>),
    PropertyWithoutName,
    NoFormat,
    MissingProperty(Seq<char>, Seq<char>),
    Truncated,
    ListOnVertices,
    FaceWithoutList,
    ExtraFaceProperties,
    UnreasonableFaceLength,
    FaceIndexOutOfRange,
    NoMeshData,
    BodyNotUtf8,
    InvalidNumber(Seq<char>),
}

impl View for PlyError {
    type V = PlyErr;

    open spec fn view(&self) -> PlyErr {
        match self {
            PlyError::NotPly => PlyErr::NotPly,
            PlyError::NoEndHeader => PlyErr::NoEndHeader,
            PlyError::HeaderNotUtf8 => PlyErr::HeaderNotUtf8,
            PlyError::MissingMagic => PlyErr::MissingMagic,
            PlyError::BigEndian => PlyErr::BigEndian,
            PlyError::InvalidFormat => PlyErr::InvalidFormat,
            PlyError::ElementWithoutName => PlyErr::ElementWithoutName,
            PlyError::ElementWithoutCount => PlyErr::ElementWithoutCount,
            PlyError::PropertyOutsideElement => PlyErr::PropertyOutsideElement,
            PlyError::PropertyWithoutType => PlyErr::PropertyWithoutType,
            PlyError::MalformedList => PlyErr::MalformedList,
            PlyError::UnknownType(t) => PlyErr::UnknownType(t@),
            PlyError::PropertyWithoutName => PlyErr::PropertyWithoutName,
            PlyError::NoFormat => PlyErr::NoFormat,
            PlyError::MissingProperty(e, n) => PlyErr::MissingProperty(e@, n@),
            PlyError::Truncated => PlyErr::Truncated,
            PlyError::ListOnVertices => PlyErr::ListOnVertices,
            PlyError::FaceWithoutList => PlyErr::FaceWithoutList,
            PlyError::ExtraFaceProperties => PlyErr::ExtraFaceProperties,
            PlyError::UnreasonableFaceLength => PlyErr::UnreasonableFaceLength,
            PlyError::FaceIndexOutOfRange => PlyErr::FaceIndexOutOfRange,
            PlyError::NoMeshData => PlyErr::NoMeshData,
            PlyError::BodyNotUtf8 => PlyErr::BodyNotUtf8,
            PlyError::InvalidNumber(t) => PlyErr::InvalidNumber(t@),
        }
    }
}

/// `res` is `Ok` with a value whose view is `ok`, or the error `err`.
pub open spec fn result_matches<T: View>(res: Result<T, PlyError>, spec: Result<T::V, PlyErr>) -> bool {
    match spec {
        Ok(v) => res matches Ok(r) && r@ == v,
        Err(e) => res matches Err(re) && re@ == e,
    }
}

// ---------------------------------------------------------------------------
// End of the header
// ---------------------------------------------------------------------------

pub open spec fn end_header_key() -> Seq<u8> {
    seq![0x65u8, 0x6E, 0x64, 0x5F, 0x68, 0x65, 0x61, 0x64, 0x65, 0x72]
}

/// The word `end_header` starts at byte `i`.
pub open spec fn key_at(b: Seq<u8>, i: int) -> bool {
    0 <= i && i + 10 <= b.len() && b.subrange(i, i + 10) == end_header_key()
}

/// `j` is just past the first line feed at or after `from`, or the end.
pub open spec fn line_end(b: Seq<u8>, from: int, j: int) -> bool {
    ||| (from < j <= b.len() && b[j - 1] == 10 && forall|k: int| from <= k < j - 1 ==> b[k] != 10)
    ||| (j == b.len() && forall|k: int| from <= k < b.len() ==> b[k] != 10)
}

/// Where the header ends: just past the line of the first `end_header`.
pub open spec fn header_end_at(b: Seq<u8>, j: int) -> bool {
    exists|i: int|
        key_at(b, i) && (forall|i2: int| 0 <= i2 < i ==> !key_at(b, i2)) && line_end(b, i + 10, j)
}

pub open spec fn header_end(b: Seq<u8>) -> Result<usize, PlyErr> {
    if b.len() < 10 {
        Err(PlyErr::NotPly)
    } else if !exists|i: int| key_at(b, i) {
        Err(PlyErr::NoEndHeader)
    } else {
        Ok(choose|j: usize| header_end_at(b, j as int))
    }
}

pub(crate) proof fn lemma_header_end_unique(b: Seq<u8>, j1: int, j2: int)
    requires
        header_end_at(b, j1),
        header_end_at(b, j2),
    ensures
        j1 == j2,
{
    let i1 = choose|i: int|
        key_at(b, i) && (forall|i2: int| 0 <= i2 < i ==> !key_at(b, i2)) && line_end(b, i + 10, j1);
    let i2 = choose|i: int|
        key_at(b, i) && (forall|i3: int| 0 <= i3 < i ==> !key_at(b, i3)) && line_end(b, i + 10, j2);
    assert(i1 == i2) by {
        if i1 < i2 {
            assert(!key_at(b, i1));
        } else if i2 < i1 {
            assert(!key_at(b, i2));
        }
    }
    if j1 < j2 {
        if j1 < b.len() {
            assert(b[j1 - 1] == 10);
        }
    } else if j2 < j1 {
        if j2 < b.len() {
            assert(b[j2 - 1] == 10);
        }
    }
}

/// Finds where the header ends: just past the line holding the first
/// `end_header`.
pub fn find_header_end(bytes: &[u8]) -> (r: Result<usize, PlyError>)
    ensures
        match header_end(bytes@) {
            Ok(j) => r == Ok::<usize, PlyError>(j),
            Err(e) => r matches Err(re) && re@ == e,
        },
        r matches Ok(j) ==> j <= bytes@.len(),
{
    let key: [u8; 10] = [0x65, 0x6E, 0x64, 0x5F, 0x68, 0x65, 0x61, 0x64, 0x65, 0x72];
    assert(key@ == end_header_key());
    let n = bytes.len();
    if n < 10 {
        return Err(PlyError::NotPly);
    }
    let mut i: usize = 0;
    while i <= n - 10
        invariant
            n == bytes@.len(),
            n >= 10,
            key@ == end_header_key(),
            i <= n,
            forall|i2: int| 0 <= i2 < i ==> !key_at(bytes@, i2),
        decreases n - i,
    {
        let mut k: usize = 0;
        while k < 10 && bytes[i + k] == key[k]
            invariant
                i + 10 <= n == bytes@.len(),
                k <= 10,
                forall|x: int| 0 <= x < k ==> bytes@[i + x] == key@[x],
            decreases 10 - k,
        {
            k += 1;
        }
        if k == 10 {
            assert(key_at(bytes@, i as int)) by {
                assert(bytes@.subrange(i as int, i + 10) =~= key@);
            }
            let mut j = i + 10;
            while j < n && bytes[j] != 10
                invariant
                    i + 10 <= j <= n == bytes@.len(),
                    forall|x: int| i + 10 <= x < j ==> bytes@[x] != 10,
                decreases n - j,
            {
                j += 1;
            }
            if j < n {
                j += 1;
            }
            proof {
                assert(line_end(bytes@, i + 10, j as int));
                assert(header_end_at(bytes@, j as int));
                let c = choose|j2: usize| header_end_at(bytes@, j2 as int);
                lemma_header_end_unique(bytes@, j as int, c as int);
            }
            return Ok(j);
        }
        assert(!key_at(bytes@, i as int)) by {
            assert(bytes@.subrange(i as int, i + 10)[k as int] != end_header_key()[k as int]);
        }
        i += 1;
    }
    assert forall|i2: int| !key_at(bytes@, i2) by {
        if 0 <= i2 < i {
        }
    }
    Err(PlyError::NoEndHeader)
}

// ---------------------------------------------------------------------------
// The header
// ---------------------------------------------------------------------------

/// What the header lines read so far declare.
pub struct Header {
    pub format: Option<PlyFormat>,
    pub elems: Seq<ElemV>,
}

pub open spec fn starts_with(s: Seq<char>, p: Seq<char>) -> bool {
    p.len() <= s.len() && s.take(p.len() as int) == p
}

/// Words joined by `sep`.
pub open spec fn join_with(ws: Seq<Seq<char>>, sep: char) -> Seq<char>
    decreases ws.len(),
{
    if ws.len() == 0 {
        seq![]
    } else if ws.len() == 1 {
        ws[0]
    } else {
        join_with(ws.drop_last(), sep) + seq![sep] + ws.last()
    }
}

/// The header with `p` added to its last element.
pub open spec fn add_prop(h: Header, p: PropV) -> Header {
    let e = h.elems.last();
    Header {
        elems: h.elems.update(h.elems.len() - 1, ElemV { props: e.props.push(p), ..e }),
        ..h
    }
}

/// A `property` line, `rest` being its words after the keyword.
pub open spec fn property_line(h: Header, rest: Seq<Seq<char>>) -> Result<Header, PlyErr> {
    if h.elems.len() == 0 {
        Err(PlyErr::PropertyOutsideElement)
    } else if rest.len() == 0 {
        Err(PlyErr::PropertyWithoutType)
    } else if rest[0] == seq!['l', 'i', 's', 't'] {
        if rest.len() < 3 {
            Err(PlyErr::MalformedList)
        } else {
            match type_named(rest[1]) {
                None => Err(PlyErr::UnknownType(rest[1])),
                Some(lc) => match type_named(rest[2]) {
                    None => Err(PlyErr::UnknownType(rest[2])),
                    Some(ty) => Ok(
                        add_prop(h, PropV { ty, name: join_with(rest.skip(3), '_'), list_count: Some(lc) }),
                    ),
                },
            }
        }
    } else {
        match type_named(rest[0]) {
            None => Err(PlyErr::UnknownType(rest[0])),
            Some(ty) => if rest.len() < 2 {
                Err(PlyErr::PropertyWithoutName)
            } else {
                Ok(add_prop(h, PropV { ty, name: rest[1], list_count: None }))
            },
        }
    }
}

/// One header line after the magic: blank lines and comments are skipped,
/// unknown keywords (`obj_info`, `end_header`) ignored.
pub open spec fn header_line(h: Header, line: Seq<char>) -> Result<Header, PlyErr> {
    let t = trim(line);
    if t.len() == 0 || t[0] == '#' || starts_with(t, seq!['c', 'o', 'm', 'm', 'e', 'n', 't']) {
        Ok(h)
    } else {
        let toks = tokens(t);
        if toks.len() == 0 {
            Ok(h)
        } else if toks[0] == seq!['f', 'o', 'r', 'm', 'a', 't'] {
            if toks.len() > 1 && toks[1] == seq!['a', 's', 'c', 'i', 'i'] {
                Ok(Header { format: Some(PlyFormat::Ascii), ..h })
            } else if toks.len() > 1 && toks[1] == seq![
                'b', 'i', 'n', 'a', 'r', 'y', '_', 'l', 'i', 't', 't', 'l', 'e', '_', 'e', 'n', 'd', 'i', 'a', 'n'
            ] {
                Ok(Header { format: Some(PlyFormat::BinaryLe), ..h })
            } else if toks.len() > 1 && toks[1] == seq![
                'b', 'i', 'n', 'a', 'r', 'y', '_', 'b', 'i', 'g', '_', 'e', 'n', 'd', 'i', 'a', 'n'
            ] {
                Err(PlyErr::BigEndian)
            } else {
                Err(PlyErr::InvalidFormat)
            }
        } else if toks[0] == seq!['e', 'l', 'e', 'm', 'e', 'n', 't'] {
            if toks.len() < 2 {
                Err(PlyErr::ElementWithoutName)
            } else if toks.len() < 3 || parse_usize(toks[2]) is None {
                Err(PlyErr::ElementWithoutCount)
            } else {
                Ok(
                    Header {
                        elems: h.elems.push(
                            ElemV { name: toks[1], count: parse_usize(toks[2]).unwrap(), props: seq![] },
                        ),
                        ..h
                    },
                )
            }
        } else if toks[0] == seq!['p', 'r', 'o', 'p', 'e', 'r', 't', 'y'] {
            property_line(h, toks.drop_first())
        } else {
            Ok(h)
        }
    }
}

/// Lines `1..k` of the header read in order (line 0 is the magic).
pub open spec fn header_lines(lines: Seq<Seq<char>>, k: int) -> Result<Header, PlyErr>
    decreases k,
{
    if k <= 1 {
        Ok(Header { format: None, elems: seq![] })
    } else {
        match header_lines(lines, k - 1) {
            Err(e) => Err(e),
            Ok(h) => header_line(h, lines[k - 1]),
        }
    }
}

/// The format and elements a header text declares.
pub open spec fn ply_header(text: Seq<char>) -> Result<(PlyFormat, Seq<ElemV>), PlyErr> {
    let lines = split_lines(text);
    if trim(lines[0]) != seq!['p', 'l', 'y'] {
        Err(PlyErr::MissingMagic)
    } else {
        match header_lines(lines, lines.len() as int) {
            Err(e) => Err(e),
            Ok(h) => match h.format {
                None => Err(PlyErr::NoFormat),
                Some(f) => Ok((f, h.elems)),
            },
        }
    }
}

fn join_underscore(ws: &Vec<Vec<char>>, from: usize) -> (r: Vec<char>)
    requires
        from <= ws@.len(),
    ensures
        r@ == join_with(ws.deep_view().skip(from as int), '_'),
{
    let ghost all = ws.deep_view();
    let mut out: Vec<char> = Vec::new();
    let mut i: usize = from;
    assert(all.skip(from as int).take(0) =~= Seq::<Seq<char>>::empty());
    while i < ws.len()
        invariant
            from <= i <= ws@.len(),
            all == ws.deep_view(),
            out@ == join_with(all.skip(from as int).take(i - from), '_'),
        decreases ws@.len() - i,
    {
        let ghost prev = all.skip(from as int).take(i - from);
        let ghost next = all.skip(from as int).take(i - from + 1);
        assert(next.drop_last() =~= prev);
        assert(next.last() == ws@[i as int]@);
        if i > from {
            out.push('_');
        } else {
            assert(prev.len() == 0);
        }
        let w = &ws[i];
        let mut k: usize = 0;
        let ghost base = out@;
        while k < w.len()
            invariant
                k <= w@.len(),
                out@ == base + w@.take(k as int),
            decreases w@.len() - k,
        {
            out.push(w[k]);
            k += 1;
        }
        assert(w@.take(w@.len() as int) == w@);
        i += 1;
        proof {
            if next.len() == 1 {
                assert(out@ =~= next[0]);
            }
        }
    }
    assert(all.skip(from as int).take(i - from) == all.skip(from as int));
    out
}

/// Reads one header line into `format` and `elems`.
fn read_header_line(format: &mut Option<PlyFormat>, elems: &mut Vec<Elem>, line: &[char]) -> (r: Result<(), PlyError>)
    ensures
        match header_line(Header { format: *old(format), elems: elems_view(old(elems)@) }, line@) {
            Ok(h) => r is Ok && h == Header { format: *final(format), elems: elems_view(final(elems)@) },
            Err(e) => r matches Err(re) && re@ == e,
        },
{
    let ghost h0 = Header { format: *format, elems: elems_view(elems@) };
    let t = trim_chars(line);
    let comment = ['c', 'o', 'm', 'm', 'e', 'n', 't'];
    let mut is_comment = t.len() >= 7;
    let mut k: usize = 0;
    while is_comment && k < 7
        invariant
            k <= 7,
            comment@ == seq!['c', 'o', 'm', 'm', 'e', 'n', 't'],
            is_comment ==> t@.len() >= 7 && forall|x: int| 0 <= x < k ==> t@[x] == comment@[x],
            !is_comment ==> !starts_with(t@, comment@),
        decreases 7 - k,
    {
        if t[k] != comment[k] {
            is_comment = false;
            assert(t@.take(7)[k as int] != comment@[k as int]);
        }
        k += 1;
    }
    if is_comment {
        assert(t@.take(7) =~= comment@);
    }
    assert(is_comment == starts_with(t@, seq!['c', 'o', 'm', 'm', 'e', 'n', 't']));
    if t.len() == 0 || t[0] == '#' || is_comment {
        return Ok(());
    }
    let toks = tokens_exec(&t);
    let ghost tv = toks.deep_view();
    assert(forall|i: int| 0 <= i < toks@.len() ==> #[trigger] toks@[i]@ == tv[i]);
    if toks.len() == 0 {
        return Ok(());
    }
    if is_word(&toks[0], &['f', 'o', 'r', 'm', 'a', 't']) {
        if toks.len() > 1 && is_word(&toks[1], &['a', 's', 'c', 'i', 'i']) {
            *format = Some(PlyFormat::Ascii);
            Ok(())
        } else if toks.len() > 1 && is_word(
            &toks[1],
            &['b', 'i', 'n', 'a', 'r', 'y', '_', 'l', 'i', 't', 't', 'l', 'e', '_', 'e', 'n', 'd', 'i', 'a', 'n'],
        ) {
            *format = Some(PlyFormat::BinaryLe);
            Ok(())
        } else if toks.len() > 1 && is_word(
            &toks[1],
            &['b', 'i', 'n', 'a', 'r', 'y', '_', 'b', 'i', 'g', '_', 'e', 'n', 'd', 'i', 'a', 'n'],
        ) {
            Err(PlyError::BigEndian)
        } else {
            Err(PlyError::InvalidFormat)
        }
    } else if is_word(&toks[0], &['e', 'l', 'e', 'm', 'e', 'n', 't']) {
        if toks.len() < 2 {
            return Err(PlyError::ElementWithoutName);
        }
        if toks.len() < 3 {
            return Err(PlyError::ElementWithoutCount);
        }
        match parse_usize_exec(&toks[2]) {
            None => Err(PlyError::ElementWithoutCount),
            Some(count) => {
                let e = Elem { name: toks[1].clone(), count, props: Vec::new() };
                assert(props_view(e.props@) =~= Seq::<PropV>::empty());
                let ghost before = elems@;
                elems.push(e);
                assert(elems_view(elems@) =~= elems_view(before).push(e@));
                Ok(())
            },
        }
    } else if is_word(&toks[0], &['p', 'r', 'o', 'p', 'e', 'r', 't', 'y']) {
        let ghost rest = tv.drop_first();
        if elems.len() == 0 {
            return Err(PlyError::PropertyOutsideElement);
        }
        if toks.len() < 2 {
            return Err(PlyError::PropertyWithoutType);
        }
        assert(rest[0] == tv[1]);
        let prop = if is_word(&toks[1], &['l', 'i', 's', 't']) {
            if toks.len() < 4 {
                return Err(PlyError::MalformedList);
            }
            let lc = match PlyType::parse(&toks[2]) {
                None => return Err(PlyError::UnknownType(toks[2].clone())),
                Some(t) => t,
            };
            let ty = match PlyType::parse(&toks[3]) {
                None => return Err(PlyError::UnknownType(toks[3].clone())),
                Some(t) => t,
            };
            let name = join_underscore(&toks, 4);
            assert(tv.skip(4) =~= rest.skip(3));
            Prop { ty, name, list_count: Some(lc) }
        } else {
            let ty = match PlyType::parse(&toks[1]) {
                None => return Err(PlyError::UnknownType(toks[1].clone())),
                Some(t) => t,
            };
            if toks.len() < 3 {
                return Err(PlyError::PropertyWithoutName);
            }
            Prop { ty, name: toks[2].clone(), list_count: None }
        };
        let ghost before = elems@;
        let mut e = elems.pop().unwrap();
        let ghost e0 = e@;
        e.props.push(prop);
        assert(props_view(e.props@) =~= e0.props.push(prop@));
        elems.push(e);
        assert(elems_view(elems@) =~= add_prop(h0, prop@).elems);
        Ok(())
    } else {
        Ok(())
    }
}

/// Reads the header text: the `ply` magic, then `format`, `element` and
/// `property` lines.
pub fn parse_header(text: &[char]) -> (r: Result<(PlyFormat, Vec<Elem>), PlyError>)
    ensures
        match ply_header(text@) {
            Ok((f, es)) => r matches Ok((rf, res)) && rf == f && elems_view(res@) == es,
            Err(e) => r matches Err(re) && re@ == e,
        },
{
    let lines = split_lines_exec(text);
    let ghost lv = lines.deep_view();
    assert(forall|i: int| 0 <= i < lines@.len() ==> #[trigger] lines@[i]@ == lv[i]);
    assert(lines@.len() > 0);
    let first = trim_chars(&lines[0]);
    if !is_word(&first, &['p', 'l', 'y']) {
        return Err(PlyError::MissingMagic);
    }
    let mut format: Option<PlyFormat> = None;
    let mut elems: Vec<Elem> = Vec::new();
    assert(elems_view(elems@) =~= Seq::<ElemV>::empty());
    assert(trim(lv[0]) =~= seq!['p', 'l', 'y']);
    let mut k: usize = 1;
    while k < lines.len()
        invariant
            1 <= k <= lines@.len(),
            lv == lines.deep_view(),
            lv == split_lines(text@),
            trim(lv[0]) == seq!['p', 'l', 'y'],
            forall|i: int| 0 <= i < lines@.len() ==> #[trigger] lines@[i]@ == lv[i],
            header_lines(lv, k as int) == Ok::<Header, PlyErr>(
                Header { format, elems: elems_view(elems@) },
            ),
        decreases lines@.len() - k,
    {
        match read_header_line(&mut format, &mut elems, &lines[k]) {
            Err(e) => {
                proof {
                    lemma_header_lines_err(lv, k as int + 1);
                }
                return Err(e);
            },
            Ok(()) => {},
        }
        k += 1;
    }
    match format {
        None => Err(PlyError::NoFormat),
        Some(f) => Ok((f, elems)),
    }
}

proof fn lemma_header_lines_err(lines: Seq<Seq<char>>, k: int)
    requires
        1 <= k <= lines.len(),
        header_lines(lines, k) is Err,
    ensures
        header_lines(lines, lines.len() as int) == header_lines(lines, k),
    decreases lines.len() - k,
{
    if k < lines.len() {
        lemma_header_lines_err(lines, k + 1);
    }
}

// ---------------------------------------------------------------------------
// Meshes and faces
// ---------------------------------------------------------------------------

/// A coordinate as stored in the file: its type and, for binary files, its
/// little-endian bytes (for ASCII files, the bits of the `f32` the text
/// rounds to, with type `Float`).
#[derive(Clone, Copy, PartialEq, Eq, Debug, Structural)]
pub struct PlyScalar {
    pub ty: PlyType,
    pub raw: u64,
}

#[derive(Clone, Copy, PartialEq, Eq, Debug, Structural)]
pub struct PlyVertex {
    pub x: PlyScalar,
    pub y: PlyScalar,
    pub z: PlyScalar,
}

/// A triangle mesh read from PLY.
#[derive(Clone, Debug)]
pub struct PlyMesh {
    pub positions: Vec<PlyVertex>,
    pub indices: Vec<u32>,
}

pub struct PlyMeshV {
    pub positions: Seq<PlyVertex>,
    pub indices: Seq<u32>,
}

impl View for PlyMesh {
    type V = PlyMeshV;

    open spec fn view(&self) -> PlyMeshV {
        PlyMeshV { positions: self.positions@, indices: self.indices@ }
    }
}

/// The index of the first property named `name`.
pub open spec fn first_named(props: Seq<PropV>, name: Seq<char>) -> Option<int>
    decreases props.len(),
{
    if props.len() == 0 {
        None
    } else if props[0].name == name {
        Some(0)
    } else {
        match first_named(props.drop_first(), name) {
            Some(i) => Some(i + 1),
            None => None,
        }
    }
}

/// The indices of the properties named `names`; the first missing name is
/// the error.
pub open spec fn prop_indices_of(props: Seq<PropV>, names: Seq<Seq<char>>, elem: Seq<char>) -> Result<Seq<int>, PlyErr>
    decreases names.len(),
{
    if names.len() == 0 {
        Ok(seq![])
    } else {
        match prop_indices_of(props, names.drop_last(), elem) {
            Err(e) => Err(e),
            Ok(v) => match first_named(props, names.last()) {
                None => Err(PlyErr::MissingProperty(elem, names.last())),
                Some(i) => Ok(v.push(i)),
            },
        }
    }
}

proof fn lemma_first_named(props: Seq<PropV>, name: Seq<char>, i: int)
    requires
        0 <= i <= props.len(),
        forall|k: int| 0 <= k < i ==> props[k].name != name,
        i < props.len() ==> props[i].name == name,
    ensures
        first_named(props, name) == (if i < props.len() {
            Some(i)
        } else {
            None::<int>
        }),
        first_named(props, name) matches Some(j) ==> 0 <= j < props.len(),
    decreases props.len(),
{
    if props.len() > 0 && i > 0 {
        lemma_first_named(props.drop_first(), name, i - 1);
    }
}

proof fn lemma_prop_indices_err(props: Seq<PropV>, names: Seq<Seq<char>>, elem: Seq<char>, j: int)
    requires
        0 <= j <= names.len(),
        prop_indices_of(props, names.take(j), elem) is Err,
    ensures
        prop_indices_of(props, names, elem) == prop_indices_of(props, names.take(j), elem),
    decreases names.len() - j,
{
    if j < names.len() {
        assert(names.take(j + 1).drop_last() =~= names.take(j));
        lemma_prop_indices_err(props, names, elem, j + 1);
    } else {
        assert(names.take(j) =~= names);
    }
}

/// Finds the properties named `names` of element `elem`.
pub fn prop_indices(props: &[Prop], names: &Vec<Vec<char>>, elem: &Vec<char>) -> (r: Result<Vec<usize>, PlyError>)
    ensures
        match prop_indices_of(props_view(props@), names.deep_view(), elem@) {
            Ok(v) => r matches Ok(rv) && rv@.len() == v.len() && forall|k: int| 0 <= k < v.len() ==> #[trigger] rv@[k] as int == v[k],
            Err(e) => r matches Err(re) && re@ == e,
        },
{
    let ghost pv = props_view(props@);
    let ghost nv = names.deep_view();
    let mut out: Vec<usize> = Vec::new();
    let mut j: usize = 0;
    while j < names.len()
        invariant
            j <= names@.len(),
            pv == props_view(props@),
            nv == names.deep_view(),
            prop_indices_of(pv, nv.take(j as int), elem@) matches Ok(v) && out@.len() == v.len()
                && forall|k: int| 0 <= k < v.len() ==> #[trigger] out@[k] as int == v[k],
        decreases names@.len() - j,
    {
        assert(nv.take(j + 1).drop_last() =~= nv.take(j as int));
        assert(nv.take(j + 1).last() == names@[j as int]@);
        let name = &names[j];
        let mut i: usize = 0;
        while i < props.len() && !is_word(&props[i].name, name)
            invariant
                i <= props@.len(),
                pv == props_view(props@),
                forall|k: int| 0 <= k < i ==> pv[k].name != name@,
            decreases props@.len() - i,
        {
            i += 1;
        }
        proof {
            lemma_first_named(pv, name@, i as int);
        }
        if i == props.len() {
            proof {
                lemma_prop_indices_err(pv, nv, elem@, j as int + 1);
            }
            return Err(PlyError::MissingProperty(elem.clone(), name.clone()));
        }
        out.push(i);
        j += 1;
    }
    assert(nv.take(names@.len() as int) == nv);
    Ok(out)
}

/// A face index resolved against `n` vertices: counted back from the last
/// vertex when negative; `None` when out of range.
pub open spec fn resolve_face_index(i: i64, n: nat) -> Option<u32> {
    let j: int = if i < 0 {
        n + i
    } else {
        i as int
    };
    if j < 0 || j >= n {
        None
    } else {
        Some(j as u32)
    }
}

/// The triangles of a face appended to `indices`: faces of fewer than three
/// corners are dropped, larger ones fanned.
pub open spec fn pushed_face(face: Seq<i64>, indices: Seq<u32>, n: nat) -> Result<Seq<u32>, PlyErr> {
    if face.len() < 3 {
        Ok(indices)
    } else if exists|k: int| 0 <= k < face.len() && resolve_face_index(#[trigger] face[k], n) is None {
        Err(PlyErr::FaceIndexOutOfRange)
    } else {
        Ok(indices + fan(Seq::new(face.len(), |k: int| resolve_face_index(face[k], n).unwrap())))
    }
}

/// Appends the triangles of a face with corners `face` on `nverts`
/// vertices.
pub fn push_face(face: &[i64], indices: &mut Vec<u32>, nverts: usize) -> (r: Result<(), PlyError>)
    ensures
        match pushed_face(face@, old(indices)@, nverts as nat) {
            Ok(v) => r is Ok && final(indices)@ == v,
            Err(e) => r matches Err(re) && re@ == e && final(indices)@ == old(indices)@,
        },
{
    if face.len() < 3 {
        return Ok(());
    }
    let mut resolved: Vec<u32> = Vec::new();
    let mut k: usize = 0;
    while k < face.len()
        invariant
            k <= face@.len(),
            face@.len() >= 3,
            indices@ == old(indices)@,
            resolved@.len() == k,
            forall|x: int| 0 <= x < k ==> #[trigger] resolve_face_index(face@[x], nverts as nat) == Some(resolved@[x]),
        decreases face@.len() - k,
    {
        let i = face[k];
        let j: i128 = if i < 0 {
            nverts as i128 + i as i128
        } else {
            i as i128
        };
        if j < 0 || j >= nverts as i128 {
            assert(resolve_face_index(face@[k as int], nverts as nat) is None);
            assert(exists|x: int| 0 <= x < face@.len() && resolve_face_index(#[trigger] face@[x], nverts as nat) is None);
            return Err(PlyError::FaceIndexOutOfRange);
        }
        let jj = j as u32;
        assert(resolve_face_index(face@[k as int], nverts as nat) == Some(jj));
        resolved.push(jj);
        k += 1;
    }
    let ghost ids = Seq::new(face@.len(), |x: int| resolve_face_index(face@[x], nverts as nat).unwrap());
    assert(resolved@ =~= ids);
    assert(!exists|x: int| 0 <= x < face@.len() && resolve_face_index(#[trigger] face@[x], nverts as nat) is None);
    let mut t: usize = 1;
    let ghost start = indices@;
    let m = resolved.len();
    while t + 1 < m
        invariant
            m == resolved@.len(),
            1 <= t < resolved@.len(),
            resolved@.len() >= 3,
            indices@ == start + fan(resolved@.take(t as int + 1)),
        decreases resolved@.len() - t,
    {
        indices.push(resolved[0]);
        indices.push(resolved[t]);
        indices.push(resolved[t + 1]);
        assert(fan(resolved@.take(t as int + 2)) =~= fan(resolved@.take(t as int + 1)) + seq![resolved@[0], resolved@[t as int], resolved@[t + 1]]);
        t += 1;
    }
    assert(resolved@.take(t as int + 1) == resolved@);
    Ok(())
}

// ---------------------------------------------------------------------------
// Binary little-endian bodies
// ---------------------------------------------------------------------------

/// The bytes of a value of type `t` at `pos`, as an unsigned number.
pub open spec fn raw_at(data: Seq<u8>, pos: int, t: PlyType) -> nat {
    le_value(data.subrange(pos, pos + type_size(t)))
}

/// `Cursor::read_int`: the value of the raw bytes of type `t` as an `i64`
/// (floats are cast toward zero and saturated).
pub open spec fn int_value(t: PlyType, raw: nat) -> i64 {
    match t {
        PlyType::Char => signed(raw, 8) as i64,
        PlyType::UChar => raw as i64,
        PlyType::Short => signed(raw, 16) as i64,
        PlyType::UShort => raw as i64,
        PlyType::Int => signed(raw, 32) as i64,
        PlyType::UInt => raw as i64,
        PlyType::Float => f32_bits_as_i64(raw as u32),
        PlyType::Double => f64_bits_as_i64(raw as u64),
    }
}

proof fn lemma_le_value_bound(b: Seq<u8>)
    ensures
        le_value(b) < pow2(8 * b.len()),
    decreases b.len(),
{
    vstd::arithmetic::power2::lemma2_to64();
    if b.len() > 0 {
        lemma_le_value_bound(b.drop_first());
        vstd::arithmetic::power2::lemma_pow2_adds(8, 8 * (b.len() - 1) as nat);
        assert(8 + 8 * (b.len() - 1) == 8 * b.len());
        let p = pow2(8 * (b.len() - 1) as nat);
        assert(b[0] as nat + 256 * le_value(b.drop_first()) < 256 * p) by (nonlinear_arith)
            requires
                le_value(b.drop_first()) < p,
                b[0] < 256,
        ;
    }
}

/// A read position over the bytes of a body.
pub struct Cursor<'a> {
    pub data: &'a [u8],
    pub pos: usize,
}

impl<'a> Cursor<'a> {
    /// Takes `n` bytes; their start, or `Truncated` when fewer are left.
    pub fn read(&mut self, n: usize) -> (r: Result<usize, PlyError>)
        requires
            old(self).pos <= old(self).data@.len(),
        ensures
            final(self).data == old(self).data,
            old(self).pos + n <= old(self).data@.len() ==> r == Ok::<usize, PlyError>(old(self).pos) && final(self).pos == old(self).pos + n,
            old(self).pos + n > old(self).data@.len() ==> (r matches Err(e) && e@ == PlyErr::Truncated),
            final(self).pos <= final(self).data@.len(),
    {
        if n > self.data.len() - self.pos {
            return Err(PlyError::Truncated);
        }
        let start = self.pos;
        self.pos = self.pos + n;
        Ok(start)
    }

    /// The unsigned value of the `size` little-endian bytes at `at`.
    fn le_at(&self, at: usize, size: usize) -> (v: u64)
        requires
            at + size <= self.data@.len(),
            size <= 8,
        ensures
            v == le_value(self.data@.subrange(at as int, at + size)),
    {
        let dlen = self.data.len();
        let mut v: u64 = 0;
        let mut k: usize = size;
        while k > 0
            invariant
                dlen == self.data@.len(),
                at + size <= self.data@.len(),
                size <= 8,
                k <= size,
                v == le_value(self.data@.subrange(at + k, at + size)),
            decreases k,
        {
            let ghost rest = self.data@.subrange(at + k, at + size);
            let ghost next = self.data@.subrange(at + k - 1, at + size);
            assert(next.drop_first() =~= rest);
            proof {
                lemma_le_value_bound(rest);
                lemma_le_value_bound(next);
                vstd::arithmetic::power2::lemma2_to64();
                vstd::arithmetic::power2::lemma2_to64_rest();
                if 8 * rest.len() < 56 {
                    vstd::arithmetic::power2::lemma_pow2_strictly_increases(8 * rest.len(), 56);
                }
            }
            v = (self.data[at + k - 1] as u64) + 256 * v;
            k -= 1;
        }
        v
    }

    /// Reads a value of type `ty` as an integer.
    pub fn read_int(&mut self, ty: PlyType) -> (r: Result<i64, PlyError>)
        requires
            old(self).pos <= old(self).data@.len(),
        ensures
            final(self).data == old(self).data,
            final(self).pos <= final(self).data@.len(),
            old(self).pos + type_size(ty) <= old(self).data@.len() ==> r == Ok::<i64, PlyError>(
                int_value(ty, raw_at(old(self).data@, old(self).pos as int, ty)),
            ) && final(self).pos == old(self).pos + type_size(ty),
            old(self).pos + type_size(ty) > old(self).data@.len() ==> (r matches Err(e) && e@ == PlyErr::Truncated),
    {
        let size = ty.size();
        let at = self.read(size)?;
        let raw = self.le_at(at, size);
        proof {
            lemma_le_value_bound(self.data@.subrange(at as int, at + size));
            vstd::arithmetic::power2::lemma2_to64();
            vstd::arithmetic::power2::lemma2_to64_rest();
        }
        Ok(match ty {
            PlyType::Char => if raw >= 128 {
                raw as i64 - 256
            } else {
                raw as i64
            },
            PlyType::UChar => raw as i64,
            PlyType::Short => if raw >= 32768 {
                raw as i64 - 65536
            } else {
                raw as i64
            },
            PlyType::UShort => raw as i64,
            PlyType::Int => if raw >= 0x8000_0000 {
                raw as i64 - 0x1_0000_0000
            } else {
                raw as i64
            },
            PlyType::UInt => raw as i64,
            PlyType::Float => f32_bits_to_i64(raw as u32),
            PlyType::Double => f64_bits_to_i64(raw),
        })
    }

    /// Reads a value of type `ty` as it is stored.
    pub fn read_scalar(&mut self, ty: PlyType) -> (r: Result<PlyScalar, PlyError>)
        requires
            old(self).pos <= old(self).data@.len(),
        ensures
            final(self).data == old(self).data,
            final(self).pos <= final(self).data@.len(),
            old(self).pos + type_size(ty) <= old(self).data@.len() ==> r == Ok::<PlyScalar, PlyError>(
                PlyScalar { ty, raw: raw_at(old(self).data@, old(self).pos as int, ty) as u64 },
            ) && final(self).pos == old(self).pos + type_size(ty),
            old(self).pos + type_size(ty) > old(self).data@.len() ==> (r matches Err(e) && e@ == PlyErr::Truncated),
    {
        let size = ty.size();
        let at = self.read(size)?;
        let raw = self.le_at(at, size);
        Ok(PlyScalar { ty, raw })
    }
}

/// The names `x`, `y`, `z` of the coordinate properties.
pub open spec fn xyz() -> Seq<Seq<char>> {
    seq![seq!['x'], seq!['y'], seq!['z']]
}

pub open spec fn vertex_word() -> Seq<char> {
    seq!['v', 'e', 'r', 't', 'e', 'x']
}

pub open spec fn face_word() -> Seq<char> {
    seq!['f', 'a', 'c', 'e']
}

/// Bytes of the first `q` (scalar) properties of a row.
pub open spec fn row_size(props: Seq<PropV>, q: int) -> int
    decreases q,
{
    if q <= 0 {
        0
    } else {
        row_size(props, q - 1) + type_size(props[q - 1].ty)
    }
}

pub open spec fn has_list(props: Seq<PropV>) -> bool {
    exists|i: int| 0 <= i < props.len() && (#[trigger] props[i]).list_count is Some
}

pub open spec fn all_lists(props: Seq<PropV>) -> bool {
    forall|i: int| 0 <= i < props.len() ==> (#[trigger] props[i]).list_count is Some
}

/// The index of the first list property.
pub open spec fn first_list(props: Seq<PropV>) -> Option<int>
    decreases props.len(),
{
    if props.len() == 0 {
        None
    } else if props[0].list_count is Some {
        Some(0)
    } else {
        match first_list(props.drop_first()) {
            Some(i) => Some(i + 1),
            None => None,
        }
    }
}

/// What a binary body has given so far.
pub struct BinState {
    pub pos: int,
    pub positions: Seq<PlyVertex>,
    pub indices: Seq<u32>,
}

pub open spec fn scalar_at(data: Seq<u8>, pos: int, props: Seq<PropV>, q: int) -> PlyScalar {
    PlyScalar { ty: props[q].ty, raw: raw_at(data, pos + row_size(props, q), props[q].ty) as u64 }
}

/// A vertex row at `pos`: the coordinates are the properties at `idx`.
pub open spec fn vertex_row(data: Seq<u8>, pos: int, props: Seq<PropV>, idx: Seq<int>) -> Result<(PlyVertex, int), PlyErr> {
    let end = pos + row_size(props, props.len() as int);
    if end > data.len() {
        Err(PlyErr::Truncated)
    } else {
        Ok(
            (
                PlyVertex {
                    x: scalar_at(data, pos, props, idx[0]),
                    y: scalar_at(data, pos, props, idx[1]),
                    z: scalar_at(data, pos, props, idx[2]),
                },
                end,
            ),
        )
    }
}

/// A face row at `pos`: the count, at most 64 corner indices.
pub open spec fn face_row(data: Seq<u8>, pos: int, lp: PropV) -> Result<(Seq<i64>, int), PlyErr> {
    let lc = lp.list_count.unwrap();
    let cs = type_size(lc) as int;
    if pos + cs > data.len() {
        Err(PlyErr::Truncated)
    } else {
        let len = int_value(lc, raw_at(data, pos, lc)) as usize;
        if len > 64 {
            Err(PlyErr::UnreasonableFaceLength)
        } else {
            let sz = type_size(lp.ty) as int;
            if pos + cs + len * sz > data.len() {
                Err(PlyErr::Truncated)
            } else {
                Ok(
                    (
                        Seq::new(len as nat, |k: int| int_value(lp.ty, raw_at(data, pos + cs + k * sz, lp.ty))),
                        pos + cs + len * sz,
                    ),
                )
            }
        }
    }
}

pub open spec fn sat_mul(a: int, b: int) -> int {
    if a * b > usize::MAX {
        usize::MAX as int
    } else {
        a * b
    }
}

/// Skipping the first `q` properties of a row of another element.
pub open spec fn skip_props(data: Seq<u8>, pos: int, props: Seq<PropV>, q: int) -> Result<int, PlyErr>
    decreases q,
{
    if q <= 0 {
        Ok(pos)
    } else {
        match skip_props(data, pos, props, q - 1) {
            Err(e) => Err(e),
            Ok(p) => {
                let pr = props[q - 1];
                match pr.list_count {
                    None => if p + type_size(pr.ty) > data.len() {
                        Err(PlyErr::Truncated)
                    } else {
                        Ok(p + type_size(pr.ty))
                    },
                    Some(lc) => if p + type_size(lc) > data.len() {
                        Err(PlyErr::Truncated)
                    } else {
                        let n = int_value(lc, raw_at(data, p, lc)) as usize;
                        let bytes = sat_mul(n as int, type_size(pr.ty) as int);
                        if p + type_size(lc) + bytes > data.len() {
                            Err(PlyErr::Truncated)
                        } else {
                            Ok(p + type_size(lc) + bytes)
                        }
                    },
                }
            },
        }
    }
}

/// One row of element `e`.
pub open spec fn bin_row(data: Seq<u8>, s: BinState, e: ElemV) -> Result<BinState, PlyErr> {
    if e.name == vertex_word() {
        let idx = prop_indices_of(e.props, xyz(), vertex_word())->Ok_0;
        match vertex_row(data, s.pos, e.props, idx) {
            Err(err) => Err(err),
            Ok((v, p)) => Ok(BinState { pos: p, positions: s.positions.push(v), ..s }),
        }
    } else if e.name == face_word() {
        let lp = e.props[first_list(e.props).unwrap()];
        match face_row(data, s.pos, lp) {
            Err(err) => Err(err),
            Ok((f, p)) => match pushed_face(f, s.indices, s.positions.len()) {
                Err(err) => Err(err),
                Ok(ind) => Ok(BinState { pos: p, indices: ind, ..s }),
            },
        }
    } else {
        match skip_props(data, s.pos, e.props, e.props.len() as int) {
            Err(err) => Err(err),
            Ok(p) => Ok(BinState { pos: p, ..s }),
        }
    }
}

/// The first `k` rows of element `e`.
pub open spec fn bin_rows(data: Seq<u8>, st: BinState, e: ElemV, k: int) -> Result<BinState, PlyErr>
    decreases k,
{
    if k <= 0 {
        Ok(st)
    } else {
        match bin_rows(data, st, e, k - 1) {
            Err(err) => Err(err),
            Ok(s) => bin_row(data, s, e),
        }
    }
}

/// Element `e` of a binary body: vertices need `x`, `y`, `z` and no lists,
/// faces need a list and nothing else.
pub open spec fn bin_elem(data: Seq<u8>, st: BinState, e: ElemV) -> Result<BinState, PlyErr> {
    if e.name == vertex_word() {
        match prop_indices_of(e.props, xyz(), vertex_word()) {
            Err(err) => Err(err),
            Ok(_) => if has_list(e.props) {
                Err(PlyErr::ListOnVertices)
            } else {
                bin_rows(data, st, e, e.count as int)
            },
        }
    } else if e.name == face_word() {
        if first_list(e.props) is None {
            Err(PlyErr::FaceWithoutList)
        } else if !all_lists(e.props) {
            Err(PlyErr::ExtraFaceProperties)
        } else {
            bin_rows(data, st, e, e.count as int)
        }
    } else {
        bin_rows(data, st, e, e.count as int)
    }
}

pub open spec fn bin_elems(data: Seq<u8>, elems: Seq<ElemV>, k: int) -> Result<BinState, PlyErr>
    decreases k,
{
    if k <= 0 {
        Ok(BinState { pos: 0, positions: seq![], indices: seq![] })
    } else {
        match bin_elems(data, elems, k - 1) {
            Err(err) => Err(err),
            Ok(s) => bin_elem(data, s, elems[k - 1]),
        }
    }
}

/// The mesh of a binary little-endian body.
pub open spec fn ply_binary(data: Seq<u8>, elems: Seq<ElemV>) -> Result<PlyMeshV, PlyErr> {
    match bin_elems(data, elems, elems.len() as int) {
        Err(err) => Err(err),
        Ok(s) => if s.positions.len() == 0 || s.indices.len() == 0 {
            Err(PlyErr::NoMeshData)
        } else {
            Ok(PlyMeshV { positions: s.positions, indices: s.indices })
        },
    }
}

proof fn lemma_row_size_mono(props: Seq<PropV>, a: int, b: int)
    requires
        0 <= a <= b,
    ensures
        row_size(props, a) <= row_size(props, b),
    decreases b - a,
{
    if a < b {
        lemma_row_size_mono(props, a, b - 1);
    }
}

/// The cursor over `data` stands at `pos`.
pub open spec fn at(c: Cursor, data: Seq<u8>, pos: int) -> bool {
    c.data@ == data && c.pos == pos && pos <= data.len()
}

fn read_vertex_row(cur: &mut Cursor, props: &[Prop], idx: &[usize]) -> (r: Result<PlyVertex, PlyError>)
    requires
        old(cur).pos <= old(cur).data@.len(),
        idx@.len() == 3,
        forall|s: int| 0 <= s < 3 ==> (#[trigger] idx@[s]) < props@.len(),
        idx@[0] != idx@[1] && idx@[0] != idx@[2] && idx@[1] != idx@[2],
    ensures
        final(cur).data@ == old(cur).data@,
        final(cur).pos <= final(cur).data@.len(),
        match vertex_row(old(cur).data@, old(cur).pos as int, props_view(props@), Seq::new(3, |s: int| idx@[s] as int)) {
            Ok((v, p)) => r == Ok::<PlyVertex, PlyError>(v) && final(cur).pos == p,
            Err(e) => r matches Err(re) && re@ == e,
        },
{
    let ghost data = cur.data@;
    let ghost start = cur.pos as int;
    let ghost pv = props_view(props@);
    let ghost iv = Seq::new(3, |s: int| idx@[s] as int);
    let zero = PlyScalar { ty: PlyType::Float, raw: 0 };
    let mut v = PlyVertex { x: zero, y: zero, z: zero };
    let mut pi: usize = 0;
    while pi < props.len()
        invariant
            pi <= props@.len(),
            pv == props_view(props@),
            iv == Seq::new(3, |s: int| idx@[s] as int),
            idx@.len() == 3,
            forall|s: int| 0 <= s < 3 ==> (#[trigger] idx@[s]) < props@.len(),
            idx@[0] != idx@[1] && idx@[0] != idx@[2] && idx@[1] != idx@[2],
            cur.data@ == data,
            data == old(cur).data@,
            start == old(cur).pos,
            cur.pos == start + row_size(pv, pi as int),
            cur.pos <= data.len(),
            idx@[0] < pi ==> v.x == scalar_at(data, start, pv, idx@[0] as int),
            idx@[1] < pi ==> v.y == scalar_at(data, start, pv, idx@[1] as int),
            idx@[2] < pi ==> v.z == scalar_at(data, start, pv, idx@[2] as int),
        decreases props@.len() - pi,
    {
        let ghost here = cur.pos;
        match cur.read_scalar(props[pi].ty) {
            Err(e) => {
                proof {
                    lemma_row_size_mono(pv, pi as int + 1, pv.len() as int);
                }
                return Err(e);
            },
            Ok(x) => {
                assert(x == scalar_at(data, start, pv, pi as int));
                if idx[0] == pi {
                    v.x = x;
                } else if idx[1] == pi {
                    v.y = x;
                } else if idx[2] == pi {
                    v.z = x;
                }
            },
        }
        pi += 1;
    }
    Ok(v)
}

fn read_face_row(cur: &mut Cursor, lp: &Prop) -> (r: Result<Vec<i64>, PlyError>)
    requires
        old(cur).pos <= old(cur).data@.len(),
        lp.list_count is Some,
    ensures
        final(cur).data@ == old(cur).data@,
        final(cur).pos <= final(cur).data@.len(),
        match face_row(old(cur).data@, old(cur).pos as int, lp@) {
            Ok((f, p)) => r matches Ok(rf) && rf@ == f && final(cur).pos == p,
            Err(e) => r matches Err(re) && re@ == e,
        },
{
    let ghost data = cur.data@;
    let ghost start = cur.pos as int;
    let lc = lp.list_count.unwrap();
    let n = cur.read_int(lc)?;
    let len = n as usize;
    if len > 64 {
        return Err(PlyError::UnreasonableFaceLength);
    }
    let ghost cs = type_size(lc) as int;
    let ghost sz = type_size(lp.ty) as int;
    let mut face: Vec<i64> = Vec::new();
    let mut k: usize = 0;
    while k < len
        invariant
            len <= 64,
            k <= len,
            cur.data@ == data,
            data == old(cur).data@,
            start == old(cur).pos,
            cs == type_size(lp.list_count.unwrap()),
            len == int_value(lp.list_count.unwrap(), raw_at(data, start, lp.list_count.unwrap())) as usize,
            start + cs <= data.len(),
            sz == type_size(lp.ty),
            cur.pos == start + cs + k * sz,
            cur.pos <= data.len(),
            face@ == Seq::new(k as nat, |x: int| int_value(lp.ty, raw_at(data, start + cs + x * sz, lp.ty))),
        decreases len - k,
    {
        match cur.read_int(lp.ty) {
            Err(e) => {
                assert(start + cs + len * sz > data.len()) by (nonlinear_arith)
                    requires
                        start + cs + k * sz + sz > data.len(),
                        k < len,
                        sz >= 0,
                ;
                return Err(e);
            },
            Ok(x) => {
                face.push(x);
            },
        }
        k += 1;
        assert(face@ =~= Seq::new(k as nat, |x: int| int_value(lp.ty, raw_at(data, start + cs + x * sz, lp.ty))));
        assert(cur.pos == start + cs + k * sz) by (nonlinear_arith)
            requires
                cur.pos == start + cs + (k - 1) * sz + sz,
        ;
    }
    Ok(face)
}

fn skip_row(cur: &mut Cursor, props: &[Prop]) -> (r: Result<(), PlyError>)
    requires
        old(cur).pos <= old(cur).data@.len(),
    ensures
        final(cur).data@ == old(cur).data@,
        final(cur).pos <= final(cur).data@.len(),
        match skip_props(old(cur).data@, old(cur).pos as int, props_view(props@), props@.len() as int) {
            Ok(p) => r is Ok && final(cur).pos == p,
            Err(e) => r matches Err(re) && re@ == e,
        },
{
    let ghost data = cur.data@;
    let ghost start = cur.pos as int;
    let ghost pv = props_view(props@);
    let mut q: usize = 0;
    while q < props.len()
        invariant
            q <= props@.len(),
            pv == props_view(props@),
            cur.data@ == data,
            data == old(cur).data@,
            start == old(cur).pos,
            cur.pos <= data.len(),
            skip_props(data, start, pv, q as int) == Ok::<int, PlyErr>(cur.pos as int),
        decreases props@.len() - q,
    {
        let pr = &props[q];
        match pr.list_count {
            None => {
                let r = cur.read(pr.ty.size());
                if r.is_err() {
                    proof { lemma_skip_err(data, start, pv, q as int + 1); }
                    return Err(PlyError::Truncated);
                }
            },
            Some(lc) => {
                let r = cur.read_int(lc);
                match r {
                    Err(e) => {
                        proof { lemma_skip_err(data, start, pv, q as int + 1); }
                        return Err(e);
                    },
                    Ok(n) => {
                        let len = n as usize;
                        let bytes = match len.checked_mul(pr.ty.size()) {
                            Some(b) => b,
                            None => usize::MAX,
                        };
                        let r2 = cur.read(bytes);
                        if r2.is_err() {
                            proof { lemma_skip_err(data, start, pv, q as int + 1); }
                            return Err(PlyError::Truncated);
                        }
                    },
                }
            },
        }
        q += 1;
    }
    Ok(())
}

proof fn lemma_skip_err(data: Seq<u8>, pos: int, props: Seq<PropV>, q: int)
    requires
        0 <= q <= props.len(),
        skip_props(data, pos, props, q) is Err,
    ensures
        skip_props(data, pos, props, props.len() as int) == skip_props(data, pos, props, q),
    decreases props.len() - q,
{
    if q < props.len() {
        lemma_skip_err(data, pos, props, q + 1);
    }
}

proof fn lemma_first_named_found(props: Seq<PropV>, name: Seq<char>)
    ensures
        first_named(props, name) matches Some(j) ==> 0 <= j < props.len() && props[j].name == name,
    decreases props.len(),
{
    if props.len() > 0 {
        lemma_first_named_found(props.drop_first(), name);
    }
}

proof fn lemma_first_list_found(props: Seq<PropV>)
    ensures
        first_list(props) matches Some(j) ==> 0 <= j < props.len() && props[j].list_count is Some,
    decreases props.len(),
{
    if props.len() > 0 {
        lemma_first_list_found(props.drop_first());
    }
}

pub(crate) proof fn lemma_first_list(props: Seq<PropV>, i: int)
    requires
        0 <= i <= props.len(),
        forall|k: int| 0 <= k < i ==> props[k].list_count is None,
        i < props.len() ==> props[i].list_count is Some,
    ensures
        first_list(props) == (if i < props.len() {
            Some(i)
        } else {
            None::<int>
        }),
    decreases props.len(),
{
    if props.len() > 0 && i > 0 {
        lemma_first_list(props.drop_first(), i - 1);
    }
}

/// The coordinate properties found are three different properties.
pub(crate) proof fn lemma_xyz(props: Seq<PropV>)
    ensures
        prop_indices_of(props, xyz(), vertex_word()) matches Ok(v) ==> {
            &&& v.len() == 3
            &&& forall|s: int| 0 <= s < 3 ==> 0 <= #[trigger] v[s] < props.len() && props[v[s]].name == xyz()[s]
            &&& v[0] != v[1] && v[0] != v[2] && v[1] != v[2]
        },
{
    let n = xyz();
    let nx: Seq<char> = seq!['x'];
    let ny: Seq<char> = seq!['y'];
    let nz: Seq<char> = seq!['z'];
    assert(n.drop_last() =~= seq![nx, ny]);
    assert(n.drop_last().drop_last() =~= seq![nx]);
    assert(n.drop_last().drop_last().drop_last() =~= Seq::<Seq<char>>::empty());
    assert(n.last() == nz);
    assert(n.drop_last().last() == ny);
    assert(n.drop_last().drop_last().last() == nx);
    lemma_first_named_found(props, nx);
    lemma_first_named_found(props, ny);
    lemma_first_named_found(props, nz);
    let p0 = prop_indices_of(props, n.drop_last().drop_last().drop_last(), vertex_word());
    let p1 = prop_indices_of(props, n.drop_last().drop_last(), vertex_word());
    let p2 = prop_indices_of(props, n.drop_last(), vertex_word());
    let p3 = prop_indices_of(props, n, vertex_word());
    assert(p0 == Ok::<Seq<int>, PlyErr>(seq![]));
    if let Ok(v) = p3 {
        assert(p2 is Ok);
        assert(p1 is Ok);
        let i0 = first_named(props, nx)->Some_0;
        let i1 = first_named(props, ny)->Some_0;
        let i2 = first_named(props, nz)->Some_0;
        assert(p1->Ok_0 =~= seq![i0]);
        assert(p2->Ok_0 =~= seq![i0, i1]);
        assert(v =~= seq![i0, i1, i2]);
        assert(nx != ny) by {
            assert(nx[0] != ny[0]);
        }
        assert(nx != nz) by {
            assert(nx[0] != nz[0]);
        }
        assert(ny != nz) by {
            assert(ny[0] != nz[0]);
        }
    }
}

proof fn lemma_bin_rows_err(data: Seq<u8>, st: BinState, e: ElemV, k: int, n: int)
    requires
        0 <= k <= n,
        bin_rows(data, st, e, k) is Err,
    ensures
        bin_rows(data, st, e, n) == bin_rows(data, st, e, k),
    decreases n - k,
{
    if k < n {
        lemma_bin_rows_err(data, st, e, k, n - 1);
    }
}

proof fn lemma_bin_elems_err(data: Seq<u8>, elems: Seq<ElemV>, k: int)
    requires
        0 <= k <= elems.len(),
        bin_elems(data, elems, k) is Err,
    ensures
        bin_elems(data, elems, elems.len() as int) == bin_elems(data, elems, k),
    decreases elems.len() - k,
{
    if k < elems.len() {
        lemma_bin_elems_err(data, elems, k + 1);
    }
}

pub fn vertex_name() -> (r: Vec<char>)
    ensures
        r@ == vertex_word(),
{
    let r = vec!['v', 'e', 'r', 't', 'e', 'x'];
    assert(r@ =~= vertex_word());
    r
}

pub fn xyz_names() -> (r: Vec<Vec<char>>)
    ensures
        r.deep_view() == xyz(),
{
    let x = vec!['x'];
    let y = vec!['y'];
    let z = vec!['z'];
    assert(x@ =~= seq!['x']);
    assert(y@ =~= seq!['y']);
    assert(z@ =~= seq!['z']);
    let r = vec![x, y, z];
    assert(r.deep_view() =~= xyz()) by {
        assert(r.deep_view()[0] == x@);
        assert(r.deep_view()[1] == y@);
        assert(r.deep_view()[2] == z@);
    }
    r
}

/// How the rows of one element are read: the coordinate properties of a
/// vertex, the list property of a face, or nothing kept.
pub enum RowPlan {
    Vertex(Vec<usize>),
    Face(usize),
    Skip,
}

/// `plan` reads the rows of `e` as `bin_row` describes them.
pub open spec fn plan_fits(plan: RowPlan, e: ElemV) -> bool {
    match plan {
        RowPlan::Vertex(idx) => {
            &&& e.name == vertex_word()
            &&& idx@.len() == 3
            &&& forall|s: int| 0 <= s < 3 ==> (#[trigger] idx@[s]) < e.props.len()
            &&& idx@[0] != idx@[1] && idx@[0] != idx@[2] && idx@[1] != idx@[2]
            &&& prop_indices_of(e.props, xyz(), vertex_word()) == Ok::<Seq<int>, PlyErr>(
                Seq::new(3, |s: int| idx@[s] as int),
            )
        },
        RowPlan::Face(lp) => {
            &&& e.name == face_word()
            &&& lp < e.props.len()
            &&& first_list(e.props) == Some(lp as int)
        },
        RowPlan::Skip => e.name != vertex_word() && e.name != face_word(),
    }
}

/// The checks made on an element before its rows are read.
pub open spec fn elem_checks(e: ElemV) -> Result<(), PlyErr> {
    if e.name == vertex_word() {
        match prop_indices_of(e.props, xyz(), vertex_word()) {
            Err(err) => Err(err),
            Ok(_) => if has_list(e.props) {
                Err(PlyErr::ListOnVertices)
            } else {
                Ok(())
            },
        }
    } else if e.name == face_word() {
        if first_list(e.props) is None {
            Err(PlyErr::FaceWithoutList)
        } else if !all_lists(e.props) {
            Err(PlyErr::ExtraFaceProperties)
        } else {
            Ok(())
        }
    } else {
        Ok(())
    }
}

proof fn lemma_bin_elem(data: Seq<u8>, st: BinState, e: ElemV)
    ensures
        bin_elem(data, st, e) == match elem_checks(e) {
            Err(err) => Err(err),
            Ok(_) => bin_rows(data, st, e, e.count as int),
        },
{
}

/// Makes the checks of `elem_checks` and the plan for the rows of `e`.
#[verifier::loop_isolation(false)]
fn row_plan(e: &Elem) -> (r: Result<RowPlan, PlyError>)
    ensures
        match elem_checks(e@) {
            Err(err) => r matches Err(re) && re@ == err,
            Ok(_) => r matches Ok(plan) && plan_fits(plan, e@),
        },
{
    let ghost ev = e@;
    let ghost pv = ev.props;
    proof {
        lemma_xyz(pv);
    }
    if is_word(&e.name, &vertex_name()) {
        let idx = match prop_indices(&e.props, &xyz_names(), &vertex_name()) {
            Err(err) => {
                return Err(err);
            },
            Ok(idx) => idx,
        };
        let mut i: usize = 0;
        while i < e.props.len()
            invariant
                i <= e.props@.len(),
                pv == props_view(e.props@),
                forall|k: int| 0 <= k < i ==> (#[trigger] pv[k]).list_count is None,
            decreases e.props@.len() - i,
        {
            if e.props[i].list_count.is_some() {
                assert(pv[i as int].list_count is Some);
                return Err(PlyError::ListOnVertices);
            }
            i += 1;
        }
        assert(!has_list(pv));
        assert(Seq::new(3, |s: int| idx@[s] as int) =~= prop_indices_of(pv, xyz(), vertex_word())->Ok_0);
        Ok(RowPlan::Vertex(idx))
    } else if is_word(&e.name, &['f', 'a', 'c', 'e']) {
        proof {
            assert(['f', 'a', 'c', 'e']@ =~= face_word());
        }
        let mut lp: usize = 0;
        while lp < e.props.len() && e.props[lp].list_count.is_none()
            invariant
                lp <= e.props@.len(),
                pv == props_view(e.props@),
                forall|k: int| 0 <= k < lp ==> (#[trigger] pv[k]).list_count is None,
            decreases e.props@.len() - lp,
        {
            lp += 1;
        }
        proof {
            lemma_first_list(pv, lp as int);
        }
        if lp == e.props.len() {
            return Err(PlyError::FaceWithoutList);
        }
        let mut i: usize = 0;
        while i < e.props.len()
            invariant
                i <= e.props@.len(),
                pv == props_view(e.props@),
                forall|k: int| 0 <= k < i ==> (#[trigger] pv[k]).list_count is Some,
            decreases e.props@.len() - i,
        {
            if e.props[i].list_count.is_none() {
                assert(pv[i as int].list_count is None);
                return Err(PlyError::ExtraFaceProperties);
            }
            i += 1;
        }
        Ok(RowPlan::Face(lp))
    } else {
        proof {
            assert(['f', 'a', 'c', 'e']@ =~= face_word());
        }
        Ok(RowPlan::Skip)
    }
}

/// Reads the rows of element `e` by `plan`.
fn read_rows(
    cur: &mut Cursor,
    e: &Elem,
    plan: &RowPlan,
    positions: &mut Vec<PlyVertex>,
    indices: &mut Vec<u32>,
) -> (r: Result<(), PlyError>)
    requires
        old(cur).pos <= old(cur).data@.len(),
        plan_fits(*plan, e@),
    ensures
        final(cur).data@ == old(cur).data@,
        final(cur).pos <= final(cur).data@.len(),
        match bin_rows(
            old(cur).data@,
            BinState { pos: old(cur).pos as int, positions: old(positions)@, indices: old(indices)@ },
            e@,
            e@.count as int,
        ) {
            Ok(st) => r is Ok && st == BinState {
                pos: final(cur).pos as int,
                positions: final(positions)@,
                indices: final(indices)@,
            },
            Err(err) => r matches Err(re) && re@ == err,
        },
{
    let ghost data = cur.data@;
    let ghost st0 = BinState { pos: cur.pos as int, positions: positions@, indices: indices@ };
    let ghost ev = e@;
    let mut k: usize = 0;
    while k < e.count
        invariant
            k <= e.count,
            ev == e@,
            plan_fits(*plan, ev),
            cur.data@ == data,
            data == old(cur).data@,
            cur.pos <= data.len(),
            st0 == (BinState { pos: old(cur).pos as int, positions: old(positions)@, indices: old(indices)@ }),
            bin_rows(data, st0, ev, k as int) == Ok::<BinState, PlyErr>(
                BinState { pos: cur.pos as int, positions: positions@, indices: indices@ },
            ),
        decreases e.count - k,
    {
        let ghost s = BinState { pos: cur.pos as int, positions: positions@, indices: indices@ };
        let step: Result<(), PlyError> = match plan {
            RowPlan::Vertex(idx) => {
                match read_vertex_row(cur, &e.props, idx) {
                    Err(err) => Err(err),
                    Ok(v) => {
                        positions.push(v);
                        Ok(())
                    },
                }
            },
            RowPlan::Face(lp) => {
                proof {
                    lemma_first_list_found(ev.props);
                }
                match read_face_row(cur, &e.props[*lp]) {
                    Err(err) => Err(err),
                    Ok(face) => push_face(&face, indices, positions.len()),
                }
            },
            RowPlan::Skip => skip_row(cur, &e.props),
        };
        match step {
            Err(err) => {
                assert(bin_row(data, s, ev) matches Err(be) && err@ == be);
                proof {
                    lemma_bin_rows_err(data, st0, ev, k as int + 1, ev.count as int);
                }
                return Err(err);
            },
            Ok(()) => {
                assert(bin_row(data, s, ev) == Ok::<BinState, PlyErr>(
                    BinState { pos: cur.pos as int, positions: positions@, indices: indices@ },
                ));
            },
        }
        k += 1;
    }
    Ok(())
}

/// Reads the rows of one element of a binary body.
fn read_bin_elem(
    cur: &mut Cursor,
    e: &Elem,
    positions: &mut Vec<PlyVertex>,
    indices: &mut Vec<u32>,
) -> (r: Result<(), PlyError>)
    requires
        old(cur).pos <= old(cur).data@.len(),
    ensures
        final(cur).data@ == old(cur).data@,
        final(cur).pos <= final(cur).data@.len(),
        match bin_elem(
            old(cur).data@,
            BinState { pos: old(cur).pos as int, positions: old(positions)@, indices: old(indices)@ },
            e@,
        ) {
            Ok(st) => r is Ok && st == BinState {
                pos: final(cur).pos as int,
                positions: final(positions)@,
                indices: final(indices)@,
            },
            Err(err) => r matches Err(re) && re@ == err,
        },
{
    proof {
        lemma_bin_elem(
            cur.data@,
            BinState { pos: cur.pos as int, positions: positions@, indices: indices@ },
            e@,
        );
    }
    let plan = row_plan(e)?;
    read_rows(cur, e, &plan, positions, indices)
}

/// Reads a binary little-endian body described by `elems`.
pub fn load_binary(body: &[u8], elems: &[Elem]) -> (r: Result<PlyMesh, PlyError>)
    ensures
        result_matches(r, ply_binary(body@, elems_view(elems@))),
{
    let ghost ev = elems_view(elems@);
    let mut cur = Cursor { data: body, pos: 0 };
    let mut positions: Vec<PlyVertex> = Vec::new();
    let mut indices: Vec<u32> = Vec::new();
    let mut ei: usize = 0;
    while ei < elems.len()
        invariant
            ei <= elems@.len(),
            ev == elems_view(elems@),
            cur.data@ == body@,
            cur.pos <= body@.len(),
            bin_elems(body@, ev, ei as int) == Ok::<BinState, PlyErr>(
                BinState { pos: cur.pos as int, positions: positions@, indices: indices@ },
            ),
        decreases elems@.len() - ei,
    {
        match read_bin_elem(&mut cur, &elems[ei], &mut positions, &mut indices) {
            Err(err) => {
                proof { lemma_bin_elems_err(body@, ev, ei as int + 1); }
                return Err(err);
            },
            Ok(()) => {},
        }
        ei += 1;
    }
    if positions.len() == 0 || indices.len() == 0 {
        return Err(PlyError::NoMeshData);
    }
    Ok(PlyMesh { positions, indices })
}

// ---------------------------------------------------------------------------
// Whole files
// ---------------------------------------------------------------------------

/// What a PLY file gives: the mesh of a binary body, or the elements of the
/// header and the tokens of an ASCII body. The numbers of the tokens are read
/// into `AsciiToken`s by the caller, and `load_ascii` reads the mesh.
pub enum PlyLoad {
    Mesh(PlyMesh),
    Ascii(Vec<Vec<char>>, Vec<Elem>),
}

pub enum PlyLoadV {
    Mesh(PlyMeshV),
    Ascii(Seq<Seq<char>>, Seq<ElemV>),
}

impl View for PlyLoad {
    type V = PlyLoadV;

    open spec fn view(&self) -> PlyLoadV {
        match self {
            PlyLoad::Mesh(m) => PlyLoadV::Mesh(m@),
            PlyLoad::Ascii(t, e) => PlyLoadV::Ascii(t.deep_view(), elems_view(e@)),
        }
    }
}

/// A PLY file: the header up to the line of `end_header`, UTF-8; then a
/// binary little-endian body, or an ASCII body in UTF-8 split at whitespace.
pub open spec fn ply_file(b: Seq<u8>) -> Result<PlyLoadV, PlyErr> {
    match header_end(b) {
        Err(e) => Err(e),
        Ok(end) => {
            let head = b.subrange(0, end as int);
            let body = b.subrange(end as int, b.len() as int);
            if !valid_utf8(head) {
                Err(PlyErr::HeaderNotUtf8)
            } else {
                match ply_header(decode_utf8(head)) {
                    Err(e) => Err(e),
                    Ok((format, elems)) => match format {
                        PlyFormat::BinaryLe => match ply_binary(body, elems) {
                            Err(e) => Err(e),
                            Ok(m) => Ok(PlyLoadV::Mesh(m)),
                        },
                        PlyFormat::Ascii => if !valid_utf8(body) {
                            Err(PlyErr::BodyNotUtf8)
                        } else {
                            Ok(PlyLoadV::Ascii(tokens(decode_utf8(body)), elems))
                        },
                    },
                }
            }
        },
    }
}

/// Reads a PLY file as far as the library can without reading decimal
/// numbers: a binary body to its mesh, an ASCII body to its tokens.
pub fn load(bytes: &[u8]) -> (r: Result<PlyLoad, PlyError>)
    ensures
        result_matches(r, ply_file(bytes@)),
{
    let end = match find_header_end(bytes) {
        Err(e) => {
            return Err(e);
        },
        Ok(end) => end,
    };
    let (head, body) = bytes.split_at(end);
    assert(head@ == bytes@.subrange(0, end as int));
    let text = match decode_utf8_chars(head) {
        None => {
            return Err(PlyError::HeaderNotUtf8);
        },
        Some(t) => t,
    };
    let (format, elems) = match parse_header(&text) {
        Err(e) => {
            return Err(e);
        },
        Ok(h) => h,
    };
    match format {
        PlyFormat::BinaryLe => match load_binary(body, &elems) {
            Err(e) => Err(e),
            Ok(m) => Ok(PlyLoad::Mesh(m)),
        },
        PlyFormat::Ascii => match decode_utf8_chars(body) {
            None => Err(PlyError::BodyNotUtf8),
            Some(chars) => Ok(PlyLoad::Ascii(tokens_exec(&chars), elems)),
        },
    }
}

// ---------------------------------------------------------------------------
// Writing
// ---------------------------------------------------------------------------

/// The four little-endian bytes of `v`.
pub open spec fn le_u32(v: u32) -> Seq<u8> {
    seq![(v % 256) as u8, ((v / 256) % 256) as u8, ((v / 65536) % 256) as u8, (v / 16777216) as u8]
}

/// The bytes of ASCII text.
pub open spec fn ascii_bytes(s: Seq<char>) -> Seq<u8> {
    s.map_values(|c: char| (c as u32) as u8)
}

/// The header of a binary file with `nv` vertices (position and normal)
/// and `nt` triangles.
pub open spec fn save_header(nv: nat, nt: nat) -> Seq<char> {
    "ply\nformat binary_little_endian 1.0\nelement vertex "@ + decimal(nv)
        + "\nproperty float x\nproperty float y\nproperty float z\nproperty float nx\nproperty float ny\nproperty float nz\nelement face "@
        + decimal(nt) + "\nproperty list uchar int vertex_indices\nend_header\n"@
}

pub open spec fn triple_bytes(p: [u32; 3]) -> Seq<u8> {
    le_u32(p[0]) + le_u32(p[1]) + le_u32(p[2])
}

/// The first `k` vertex rows: the position's three floats, then the
/// normal's.
pub open spec fn vertex_rows(positions: Seq<[u32; 3]>, normals: Seq<[u32; 3]>, k: int) -> Seq<u8>
    decreases k,
{
    if k <= 0 {
        seq![]
    } else {
        vertex_rows(positions, normals, k - 1) + triple_bytes(positions[k - 1]) + triple_bytes(normals[k - 1])
    }
}

/// The first `t` face rows: the count 3, then three indices.
pub open spec fn face_rows(indices: Seq<u32>, t: int) -> Seq<u8>
    decreases t,
{
    if t <= 0 {
        seq![]
    } else {
        face_rows(indices, t - 1) + seq![3u8] + le_u32(indices[3 * t - 3]) + le_u32(indices[3 * t - 2])
            + le_u32(indices[3 * t - 1])
    }
}

/// A binary PLY file of a mesh whose floats are given by their bits. There
/// is one row for each position that has a normal; the header counts the
/// positions.
pub open spec fn ply_save(positions: Seq<[u32; 3]>, normals: Seq<[u32; 3]>, indices: Seq<u32>) -> Seq<u8> {
    let nt = indices.len() / 3;
    let rows = if positions.len() <= normals.len() {
        positions.len()
    } else {
        normals.len()
    };
    ascii_bytes(save_header(positions.len(), nt)) + vertex_rows(positions, normals, rows as int)
        + face_rows(indices, nt as int)
}

fn push_le_u32(out: &mut Vec<u8>, v: u32)
    ensures
        final(out)@ == old(out)@ + le_u32(v),
{
    out.push((v % 256) as u8);
    out.push(((v / 256) % 256) as u8);
    out.push(((v / 65536) % 256) as u8);
    out.push((v / 16777216) as u8);
}

fn push_ascii(out: &mut Vec<u8>, s: &[char])
    ensures
        final(out)@ == old(out)@ + ascii_bytes(s@),
{
    let ghost start = out@;
    let mut i: usize = 0;
    while i < s.len()
        invariant
            i <= s@.len(),
            out@ == start + ascii_bytes(s@.take(i as int)),
        decreases s@.len() - i,
    {
        out.push((s[i] as u32) as u8);
        i += 1;
        assert(out@ =~= start + ascii_bytes(s@.take(i as int)));
    }
    assert(s@.take(s@.len() as int) =~= s@);
}

/// Writes a binary little-endian PLY file: positions and normals as floats,
/// given by their bits, and the triangles of `indices`.
pub fn save(positions: &[[u32; 3]], normals: &[[u32; 3]], indices: &[u32]) -> (r: Vec<u8>)
    ensures
        r@ == ply_save(positions@, normals@, indices@),
{
    let nv = positions.len();
    let nt = indices.len() / 3;
    let mut head = str_to_chars("ply\nformat binary_little_endian 1.0\nelement vertex ");
    push_decimal(&mut head, nv as u64);
    head.append(&mut str_to_chars(
        "\nproperty float x\nproperty float y\nproperty float z\nproperty float nx\nproperty float ny\nproperty float nz\nelement face ",
    ));
    push_decimal(&mut head, nt as u64);
    head.append(&mut str_to_chars("\nproperty list uchar int vertex_indices\nend_header\n"));
    assert(head@ == save_header(nv as nat, nt as nat));
    let mut out: Vec<u8> = Vec::new();
    push_ascii(&mut out, &head);
    let ghost top = out@;
    let rows = if positions.len() <= normals.len() {
        positions.len()
    } else {
        normals.len()
    };
    let mut k: usize = 0;
    while k < rows
        invariant
            k <= rows,
            rows <= positions@.len(),
            rows <= normals@.len(),
            out@ == top + vertex_rows(positions@, normals@, k as int),
        decreases rows - k,
    {
        let p = positions[k];
        let n = normals[k];
        push_le_u32(&mut out, p[0]);
        push_le_u32(&mut out, p[1]);
        push_le_u32(&mut out, p[2]);
        push_le_u32(&mut out, n[0]);
        push_le_u32(&mut out, n[1]);
        push_le_u32(&mut out, n[2]);
        k += 1;
        assert(out@ =~= top + vertex_rows(positions@, normals@, k as int));
    }
    let ghost mid = out@;
    assert(3 * nt <= indices@.len()) by (nonlinear_arith)
        requires
            nt == indices@.len() / 3,
    ;
    let ilen = indices.len();
    let mut t: usize = 0;
    while t < nt
        invariant
            t <= nt,
            ilen == indices@.len(),
            nt == indices@.len() / 3,
            3 * nt <= indices@.len(),
            out@ == mid + face_rows(indices@, t as int),
        decreases nt - t,
    {
        assert(3 * t + 2 < indices@.len()) by (nonlinear_arith)
            requires
                t < nt,
                3 * nt <= indices@.len(),
        ;
        let b = 3 * t;
        push_face_row(&mut out, indices[b], indices[b + 1], indices[b + 2]);
        t += 1;
        assert(face_rows(indices@, t as int) == face_rows(indices@, t - 1) + seq![3u8] + le_u32(indices@[3 * t - 3])
            + le_u32(indices@[3 * t - 2]) + le_u32(indices@[3 * t - 1]));
        assert(out@ =~= mid + face_rows(indices@, t as int));
    }
    out
}

fn push_face_row(out: &mut Vec<u8>, a: u32, b: u32, c: u32)
    ensures
        final(out)@ == old(out)@ + seq![3u8] + le_u32(a) + le_u32(b) + le_u32(c),
{
    out.push(3u8);
    push_le_u32(out, a);
    push_le_u32(out, b);
    push_le_u32(out, c);
}

} // verus!
