//! Character-level building blocks of the text formats: UTF-8 decoding,
//! whitespace, line and token splitting, integer and float literals, and
//! decimal formatting.
use vstd::prelude::*;
use vstd::utf8::*;
use vstd::string::StringSliceAdditionalSpecFns;

verus! {

broadcast use vstd::string::group_string_axioms;

// ---------------------------------------------------------------------------
// UTF-8
// ---------------------------------------------------------------------------

/// `std::str::from_utf8`: succeeds exactly on well-formed UTF-8, and the text
/// it returns is made of exactly the given bytes.
#[verifier::external_body]
fn str_from_utf8(bytes: &[u8]) -> (r: Option<&str>)
    ensures
        r is Some <==> valid_utf8(bytes@),
        r matches Some(s) ==> s.spec_bytes() == bytes@,
{
    std::str::from_utf8(bytes).ok()
}

/// The characters of a string slice, in order.
pub fn str_to_chars(s: &str) -> (r: Vec<char>)
    ensures
        r@ == s@,
{
    let mut r: Vec<char> = Vec::new();
    for c in it: s.chars()
        invariant
            r@ == it.seq().take(it.index() as int),
            it.seq() == s@,
    {
        r.push(c);
    }
    r
}

/// Decodes UTF-8 bytes into characters; `None` when the bytes are not UTF-8.
pub fn decode_utf8_chars(bytes: &[u8]) -> (r: Option<Vec<char>>)
    ensures
        r is Some <==> valid_utf8(bytes@),
        r matches Some(v) ==> v@ == decode_utf8(bytes@),
{
    match str_from_utf8(bytes) {
        None => None,
        Some(s) => {
            proof {
                encode_utf8_decode_utf8(s@);
            }
            Some(str_to_chars(s))
        },
    }
}

/// `String::push`: appends one character.
#[verifier::external_body]
pub fn string_push(s: &mut String, c: char)
    ensures
        final(s)@ == old(s)@.push(c),
{
    s.push(c);
}

/// The string made of the given characters.
pub fn chars_to_string(v: &[char]) -> (s: String)
    ensures
        s@ == v@,
{
    let mut s = String::new();
    let mut i: usize = 0;
    while i < v.len()
        invariant
            i <= v.len(),
            s@ == v@.take(i as int),
        decreases v.len() - i,
    {
        string_push(&mut s, v[i]);
        i += 1;
        assert(s@ == v@.take(i as int));
    }
    assert(v@.take(v.len() as int) == v@);
    s
}

// ---------------------------------------------------------------------------
// Whitespace and trimming
// ---------------------------------------------------------------------------

/// ASCII whitespace as `char::is_ascii_whitespace` defines it: space, tab,
/// line feed, form feed and carriage return.
pub open spec fn is_ascii_ws(c: char) -> bool {
    c == ' ' || c == '\t' || c == '\n' || c == '\x0C' || c == '\r'
}

/// Unicode `White_Space`, as `char::is_whitespace` (and so `str::trim`)
/// defines it.
pub open spec fn is_unicode_ws(c: char) -> bool {
    let u = c as u32;
    ||| 0x09 <= u <= 0x0D
    ||| u == 0x20
    ||| u == 0x85
    ||| u == 0xA0
    ||| u == 0x1680
    ||| 0x2000 <= u <= 0x200A
    ||| u == 0x2028
    ||| u == 0x2029
    ||| u == 0x202F
    ||| u == 0x205F
    ||| u == 0x3000
}

pub fn ascii_ws(c: char) -> (b: bool)
    ensures
        b == is_ascii_ws(c),
{
    c == ' ' || c == '\t' || c == '\n' || c == '\x0C' || c == '\r'
}

pub fn unicode_ws(c: char) -> (b: bool)
    ensures
        b == is_unicode_ws(c),
{
    let u = c as u32;
    (0x09 <= u && u <= 0x0D) || u == 0x20 || u == 0x85 || u == 0xA0 || u == 0x1680 || (0x2000
        <= u && u <= 0x200A) || u == 0x2028 || u == 0x2029 || u == 0x202F || u == 0x205F || u
        == 0x3000
}

/// The text without its leading Unicode whitespace.
pub open spec fn trim_start(s: Seq<char>) -> Seq<char>
    decreases s.len(),
{
    if s.len() > 0 && is_unicode_ws(s[0]) {
        trim_start(s.drop_first())
    } else {
        s
    }
}

/// The text without its trailing Unicode whitespace.
pub open spec fn trim_end(s: Seq<char>) -> Seq<char>
    decreases s.len(),
{
    if s.len() > 0 && is_unicode_ws(s.last()) {
        trim_end(s.drop_last())
    } else {
        s
    }
}

/// `str::trim`: the text without leading and trailing Unicode whitespace.
pub open spec fn trim(s: Seq<char>) -> Seq<char> {
    trim_end(trim_start(s))
}

/// `str::trim` on a character slice.
pub fn trim_chars(s: &[char]) -> (r: Vec<char>)
    ensures
        r@ == trim(s@),
{
    let n = s.len();
    let mut i: usize = 0;
    assert(s@.subrange(0, n as int) == s@);
    while i < n && unicode_ws(s[i])
        invariant
            i <= n == s@.len(),
            trim_start(s@) == trim_start(s@.subrange(i as int, n as int)),
        decreases n - i,
    {
        assert(s@.subrange(i as int, n as int).drop_first() == s@.subrange(i + 1, n as int));
        i += 1;
    }
    assert(trim_start(s@) == s@.subrange(i as int, n as int));
    let mut j: usize = n;
    while j > i && unicode_ws(s[j - 1])
        invariant
            i <= j <= n == s@.len(),
            trim(s@) == trim_end(s@.subrange(i as int, j as int)),
        decreases j,
    {
        assert(s@.subrange(i as int, j as int).drop_last() == s@.subrange(i as int, j - 1));
        j -= 1;
    }
    let mut r: Vec<char> = Vec::new();
    let mut k: usize = i;
    while k < j
        invariant
            i <= k <= j <= n == s@.len(),
            r@ == s@.subrange(i as int, k as int),
        decreases j - k,
    {
        r.push(s[k]);
        k += 1;
    }
    r
}

// ---------------------------------------------------------------------------
// Lines and tokens
// ---------------------------------------------------------------------------

/// Splitting at line feeds, read left to right: the finished pieces and the
/// piece still open.
pub open spec fn lines_acc(s: Seq<char>) -> (Seq<Seq<char>>, Seq<char>)
    decreases s.len(),
{
    if s.len() == 0 {
        (seq![], seq![])
    } else {
        let (d, c) = lines_acc(s.drop_last());
        if s.last() == '\n' {
            (d.push(c), seq![])
        } else {
            (d, c.push(s.last()))
        }
    }
}

/// The pieces of `s` between line feeds (one more piece than line feeds).
/// Line `k` of a file is piece `k`.
pub open spec fn split_lines(s: Seq<char>) -> Seq<Seq<char>> {
    lines_acc(s).0.push(lines_acc(s).1)
}

/// Splits `s` at every line feed.
pub fn split_lines_exec(s: &[char]) -> (r: Vec<Vec<char>>)
    ensures
        r.deep_view() == split_lines(s@),
{
    let mut done: Vec<Vec<char>> = Vec::new();
    let mut cur: Vec<char> = Vec::new();
    let mut i: usize = 0;
    while i < s.len()
        invariant
            i <= s.len(),
            (done.deep_view(), cur@) == lines_acc(s@.take(i as int)),
        decreases s.len() - i,
    {
        assert(s@.take(i + 1).drop_last() == s@.take(i as int));
        let ghost old_done = done.deep_view();
        if s[i] == '\n' {
            assert(cur.deep_view() =~= cur@);
            let piece = cur;
            cur = Vec::new();
            done.push(piece);
            assert(done.deep_view() =~= old_done.push(piece@));
        } else {
            cur.push(s[i]);
        }
        i += 1;
    }
    assert(s@.take(s.len() as int) == s@);
    let ghost old_done = done.deep_view();
    let ghost last = cur@;
    assert(cur.deep_view() =~= cur@);
    done.push(cur);
    assert(done.deep_view() =~= old_done.push(last));
    done
}

/// Splitting at ASCII whitespace, read left to right: the finished tokens and
/// the token still open.
pub open spec fn tokens_acc(s: Seq<char>) -> (Seq<Seq<char>>, Seq<char>)
    decreases s.len(),
{
    if s.len() == 0 {
        (seq![], seq![])
    } else {
        let (d, c) = tokens_acc(s.drop_last());
        if is_ascii_ws(s.last()) {
            if c.len() > 0 {
                (d.push(c), seq![])
            } else {
                (d, seq![])
            }
        } else {
            (d, c.push(s.last()))
        }
    }
}

/// `str::split_ascii_whitespace`: the non-empty runs of non-whitespace.
pub open spec fn tokens(s: Seq<char>) -> Seq<Seq<char>> {
    let (d, c) = tokens_acc(s);
    if c.len() > 0 {
        d.push(c)
    } else {
        d
    }
}

/// Splits `s` at ASCII whitespace, dropping empty pieces.
pub fn tokens_exec(s: &[char]) -> (r: Vec<Vec<char>>)
    ensures
        r.deep_view() == tokens(s@),
{
    let mut done: Vec<Vec<char>> = Vec::new();
    let mut cur: Vec<char> = Vec::new();
    let mut i: usize = 0;
    while i < s.len()
        invariant
            i <= s.len(),
            (done.deep_view(), cur@) == tokens_acc(s@.take(i as int)),
        decreases s.len() - i,
    {
        assert(s@.take(i + 1).drop_last() == s@.take(i as int));
        let ghost old_done = done.deep_view();
        if ascii_ws(s[i]) {
            if cur.len() > 0 {
                assert(cur.deep_view() =~= cur@);
                let piece = cur;
                cur = Vec::new();
                done.push(piece);
                assert(done.deep_view() =~= old_done.push(piece@));
            }
        } else {
            cur.push(s[i]);
        }
        i += 1;
    }
    assert(s@.take(s.len() as int) == s@);
    let ghost old_done = done.deep_view();
    let ghost last = cur@;
    assert(cur.deep_view() =~= cur@);
    if cur.len() > 0 {
        done.push(cur);
        assert(done.deep_view() =~= old_done.push(last));
    }
    done
}

// ---------------------------------------------------------------------------
// Integer literals
// ---------------------------------------------------------------------------

pub open spec fn is_digit(c: char) -> bool {
    '0' <= c <= '9'
}

pub open spec fn digit_value(c: char) -> int {
    (c as u32) - ('0' as u32)
}

/// A non-empty run of decimal digits.
pub open spec fn is_digits(s: Seq<char>) -> bool {
    s.len() > 0 && forall|i: int| 0 <= i < s.len() ==> is_digit(#[trigger] s[i])
}

/// The value of a run of decimal digits.
pub open spec fn digits_value(s: Seq<char>) -> int
    decreases s.len(),
{
    if s.len() == 0 {
        0
    } else {
        digits_value(s.drop_last()) * 10 + digit_value(s.last())
    }
}

/// A decimal integer with an optional sign, and its value.
pub open spec fn int_literal(s: Seq<char>) -> Option<int> {
    if s.len() > 0 && s[0] == '-' {
        if is_digits(s.drop_first()) {
            Some(-digits_value(s.drop_first()))
        } else {
            None
        }
    } else if s.len() > 0 && s[0] == '+' {
        if is_digits(s.drop_first()) {
            Some(digits_value(s.drop_first()))
        } else {
            None
        }
    } else if is_digits(s) {
        Some(digits_value(s))
    } else {
        None
    }
}

/// `str::parse::<i64>`.
pub open spec fn parse_i64(s: Seq<char>) -> Option<i64> {
    match int_literal(s) {
        Some(v) => if i64::MIN <= v <= i64::MAX {
            Some(v as i64)
        } else {
            None
        },
        None => None,
    }
}

/// `str::parse::<usize>`: no minus sign, and the value must fit.
pub open spec fn parse_usize(s: Seq<char>) -> Option<usize> {
    if s.len() > 0 && s[0] == '-' {
        None
    } else {
        match int_literal(s) {
            Some(v) => if 0 <= v <= usize::MAX {
                Some(v as usize)
            } else {
                None
            },
            None => None,
        }
    }
}

proof fn lemma_digits_value_nonneg(s: Seq<char>)
    requires
        forall|i: int| 0 <= i < s.len() ==> is_digit(#[trigger] s[i]),
    ensures
        digits_value(s) >= 0,
    decreases s.len(),
{
    if s.len() > 0 {
        lemma_digits_value_nonneg(s.drop_last());
    }
}

/// Value of the digit run `s` (after an optional sign has been removed):
/// `Some(v)` when it is a digit run whose value fits in `u64`, `None` when
/// it is no digit run, and `Some(u64::MAX)` with `big` when it is too large.
fn digits_u64(s: &[char], start: usize) -> (r: (bool, u64, bool))
    requires
        start <= s.len(),
    ensures
        r.0 == is_digits(s@.skip(start as int)),
        r.0 && !r.2 ==> r.1 == digits_value(s@.skip(start as int)),
        r.0 ==> (r.2 <==> digits_value(s@.skip(start as int)) > u64::MAX),
{
    let ghost t = s@.skip(start as int);
    let mut i: usize = start;
    let mut acc: u64 = 0;
    let mut big = false;
    while i < s.len()
        invariant
            start <= i <= s.len(),
            t == s@.skip(start as int),
            forall|k: int| 0 <= k < i - start ==> is_digit(#[trigger] t[k]),
            !big ==> acc == digits_value(t.take(i - start)),
            big ==> digits_value(t.take(i - start)) > u64::MAX,
        decreases s.len() - i,
    {
        let c = s[i];
        if !('0' <= c && c <= '9') {
            assert(!is_digit(t[i - start]));
            return (false, 0, false);
        }
        let d = (c as u32 - '0' as u32) as u64;
        assert(t.take(i - start + 1).drop_last() == t.take(i - start));
        proof {
            lemma_digits_value_nonneg(t.take(i - start));
        }
        if !big {
            if acc > (u64::MAX - d) / 10 {
                big = true;
            } else {
                acc = acc * 10 + d;
            }
        }
        i += 1;
    }
    assert(t.take(i - start) == t);
    if i == start {
        return (false, 0, false);
    }
    (true, acc, big)
}

/// `str::parse::<i64>` on characters.
pub fn parse_i64_exec(s: &[char]) -> (r: Option<i64>)
    ensures
        r == parse_i64(s@),
{
    if s.len() > 0 && s[0] == '-' {
        assert(s@.skip(1) == s@.drop_first());
        let (ok, v, big) = digits_u64(s, 1);
        if !ok || big || v > 0x8000_0000_0000_0000u64 {
            return None;
        }
        if v == 0x8000_0000_0000_0000u64 {
            Some(i64::MIN)
        } else {
            Some(-(v as i64))
        }
    } else {
        let start: usize = if s.len() > 0 && s[0] == '+' {
            1
        } else {
            0
        };
        assert(s@.skip(1) == s@.drop_first());
        assert(s@.skip(0) == s@);
        let (ok, v, big) = digits_u64(s, start);
        if !ok || big || v > i64::MAX as u64 {
            return None;
        }
        Some(v as i64)
    }
}

/// `str::parse::<usize>` on characters.
pub fn parse_usize_exec(s: &[char]) -> (r: Option<usize>)
    ensures
        r == parse_usize(s@),
{
    if s.len() > 0 && s[0] == '-' {
        return None;
    }
    let start: usize = if s.len() > 0 && s[0] == '+' {
        1
    } else {
        0
    };
    assert(s@.skip(1) == s@.drop_first());
    assert(s@.skip(0) == s@);
    let (ok, v, big) = digits_u64(s, start);
    if !ok || big || v > usize::MAX as u64 {
        return None;
    }
    Some(v as usize)
}

// ---------------------------------------------------------------------------
// Float literals
// ---------------------------------------------------------------------------

/// ASCII lower-casing.
pub open spec fn lower(c: char) -> char {
    if 'A' <= c <= 'Z' {
        ((c as u32) + 32) as char
    } else {
        c
    }
}

/// `s` equals the lower-case word `w` when lower-cased.
pub open spec fn lower_eq(s: Seq<char>, w: Seq<char>) -> bool {
    s.len() == w.len() && forall|i: int| 0 <= i < s.len() ==> lower(#[trigger] s[i]) == w[i]
}

/// `Digit+ | Digit+ '.' Digit* | Digit* '.' Digit+`: digits and at most one
/// point, with at least one digit.
pub open spec fn is_mantissa(m: Seq<char>) -> bool {
    &&& forall|i: int| 0 <= i < m.len() ==> is_digit(#[trigger] m[i]) || m[i] == '.'
    &&& forall|i: int, j: int|
        0 <= i < m.len() && 0 <= j < m.len() && m[i] == '.' && m[j] == '.' ==> i == j
    &&& exists|i: int| 0 <= i < m.len() && is_digit(#[trigger] m[i])
}

/// `Sign? Digit+`.
pub open spec fn is_signed_digits(x: Seq<char>) -> bool {
    if x.len() > 0 && (x[0] == '+' || x[0] == '-') {
        is_digits(x.drop_first())
    } else {
        is_digits(x)
    }
}

pub open spec fn is_exp_mark(c: char) -> bool {
    c == 'e' || c == 'E'
}

/// `Number ::= Mantissa Exp?` with `Exp ::= 'e' Sign? Digit+` (either case).
pub open spec fn is_number(b: Seq<char>) -> bool {
    ||| is_mantissa(b)
    ||| exists|k: int|
        0 <= k < b.len() && is_exp_mark(#[trigger] b[k]) && is_mantissa(b.take(k))
            && is_signed_digits(b.skip(k + 1))
}

/// The text accepted by `str::parse::<f32>` (and `f64`), following the
/// grammar in the standard library's documentation:
/// `Sign? ('inf' | 'infinity' | 'nan' | Number)`, letters in either case.
pub open spec fn is_float_literal(s: Seq<char>) -> bool {
    let b = if s.len() > 0 && (s[0] == '+' || s[0] == '-') {
        s.drop_first()
    } else {
        s
    };
    ||| lower_eq(b, seq!['i', 'n', 'f'])
    ||| lower_eq(b, seq!['i', 'n', 'f', 'i', 'n', 'i', 't', 'y'])
    ||| lower_eq(b, seq!['n', 'a', 'n'])
    ||| is_number(b)
}

/// Whether `c` lower-cases to `w`.
pub(crate) fn lower_is(c: char, w: char) -> (r: bool)
    ensures
        r == (lower(c) == w),
{
    proof {
        broadcast use vstd::utf8::char_u32_cast;
    }
    if 'A' <= c && c <= 'Z' {
        c as u32 + 32 == w as u32
    } else {
        c == w
    }
}

pub(crate) fn lower_eq_exec(s: &[char], start: usize, w: &[char]) -> (r: bool)
    requires
        start <= s.len(),
    ensures
        r == lower_eq(s@.skip(start as int), w@),
{
    let ghost b = s@.skip(start as int);
    if s.len() - start != w.len() {
        return false;
    }
    let mut i: usize = 0;
    while i < w.len()
        invariant
            start <= s.len(),
            s.len() - start == w.len(),
            b == s@.skip(start as int),
            i <= w.len(),
            forall|k: int| 0 <= k < i ==> lower(#[trigger] b[k]) == w@[k],
        decreases w.len() - i,
    {
        if !lower_is(s[start + i], w[i]) {
            assert(lower(b[i as int]) != w@[i as int]);
            return false;
        }
        i += 1;
    }
    true
}

/// Checks `is_mantissa` on `s[from..to]`.
fn mantissa_exec(s: &[char], from: usize, to: usize) -> (r: bool)
    requires
        from <= to <= s.len(),
    ensures
        r == is_mantissa(s@.subrange(from as int, to as int)),
{
    let ghost m = s@.subrange(from as int, to as int);
    let mut i: usize = from;
    let mut dot: Option<usize> = None;
    let mut digit = false;
    while i < to
        invariant
            from <= i <= to <= s.len(),
            m == s@.subrange(from as int, to as int),
            forall|k: int| 0 <= k < i - from ==> is_digit(#[trigger] m[k]) || m[k] == '.',
            dot is None ==> forall|k: int| 0 <= k < i - from ==> m[k] != '.',
            dot matches Some(d) ==> from <= d < i && m[d - from] == '.' && forall|k: int|
                0 <= k < i - from && m[k] == '.' ==> k == d - from,
            digit <==> exists|k: int| 0 <= k < i - from && is_digit(#[trigger] m[k]),
        decreases to - i,
    {
        let c = s[i];
        assert(m[i - from] == c);
        if c == '.' {
            if dot.is_some() {
                return false;
            }
            dot = Some(i);
        } else if '0' <= c && c <= '9' {
            digit = true;
        } else {
            return false;
        }
        i += 1;
    }
    digit
}

/// Checks `is_signed_digits` on `s[from..]`.
fn signed_digits_exec(s: &[char], from: usize) -> (r: bool)
    requires
        from <= s.len(),
    ensures
        r == is_signed_digits(s@.skip(from as int)),
{
    let ghost x = s@.skip(from as int);
    if from < s.len() && (s[from] == '+' || s[from] == '-') {
        assert(x.drop_first() == s@.skip(from + 1));
        let (ok, _, _) = digits_u64(s, from + 1);
        ok
    } else {
        let (ok, _, _) = digits_u64(s, from);
        ok
    }
}

/// Whether `str::parse::<f32>` accepts the text.
pub fn is_float_literal_exec(s: &[char]) -> (r: bool)
    ensures
        r == is_float_literal(s@),
{
    let start: usize = if s.len() > 0 && (s[0] == '+' || s[0] == '-') {
        1
    } else {
        0
    };
    let ghost b = s@.skip(start as int);
    assert(s@.skip(1) == s@.drop_first());
    assert(s@.skip(0) == s@);
    let inf = ['i', 'n', 'f'];
    let infinity = ['i', 'n', 'f', 'i', 'n', 'i', 't', 'y'];
    let nan = ['n', 'a', 'n'];
    assert(inf@ == seq!['i', 'n', 'f']);
    assert(infinity@ == seq!['i', 'n', 'f', 'i', 'n', 'i', 't', 'y']);
    assert(nan@ == seq!['n', 'a', 'n']);
    if lower_eq_exec(s, start, &inf) || lower_eq_exec(s, start, &infinity) || lower_eq_exec(
        s,
        start,
        &nan,
    ) {
        return true;
    }
    // The first exponent mark splits mantissa and exponent.
    let mut k: usize = start;
    while k < s.len() && !(s[k] == 'e' || s[k] == 'E')
        invariant
            start <= k <= s.len(),
            b == s@.skip(start as int),
            forall|j: int| 0 <= j < k - start ==> !is_exp_mark(#[trigger] b[j]),
        decreases s.len() - k,
    {
        k += 1;
    }
    assert(b.len() == s.len() - start);
    if k == s.len() {
        assert(b == s@.subrange(start as int, s.len() as int));
        let r = mantissa_exec(s, start, s.len());
        assert(!exists|j: int|
            0 <= j < b.len() && is_exp_mark(#[trigger] b[j]) && is_mantissa(b.take(j))
                && is_signed_digits(b.skip(j + 1)));
        r
    } else {
        let ghost kk = (k - start) as int;
        assert(is_exp_mark(b[kk]));
        assert(b.take(kk) == s@.subrange(start as int, k as int));
        assert(b.skip(kk + 1) == s@.skip(k + 1));
        let m = mantissa_exec(s, start, k);
        let e = signed_digits_exec(s, k + 1);
        // No mantissa holds an exponent mark, so `kk` is the only split.
        assert(!is_mantissa(b)) by {
            assert(!(is_digit(b[kk]) || b[kk] == '.'));
        }
        assert forall|j: int|
            0 <= j < b.len() && is_exp_mark(#[trigger] b[j]) && is_mantissa(b.take(j))
                && is_signed_digits(b.skip(j + 1)) implies j == kk by {
            if j > kk {
                assert(b.take(j)[kk] == b[kk]);
                assert(!(is_digit(b.take(j)[kk]) || b.take(j)[kk] == '.'));
            }
        }
        m && e
    }
}

// ---------------------------------------------------------------------------
// Decimal formatting
// ---------------------------------------------------------------------------

pub open spec fn digit_char(d: int) -> char {
    if d == 0 {
        '0'
    } else if d == 1 {
        '1'
    } else if d == 2 {
        '2'
    } else if d == 3 {
        '3'
    } else if d == 4 {
        '4'
    } else if d == 5 {
        '5'
    } else if d == 6 {
        '6'
    } else if d == 7 {
        '7'
    } else if d == 8 {
        '8'
    } else {
        '9'
    }
}

/// The decimal digits of `n`, without leading zeros.
pub open spec fn decimal(n: nat) -> Seq<char>
    decreases n,
{
    if n < 10 {
        seq![digit_char(n as int)]
    } else {
        decimal(n / 10).push(digit_char((n % 10) as int))
    }
}

fn digit_char_exec(d: u64) -> (c: char)
    requires
        d < 10,
    ensures
        c == digit_char(d as int),
{
    if d == 0 {
        '0'
    } else if d == 1 {
        '1'
    } else if d == 2 {
        '2'
    } else if d == 3 {
        '3'
    } else if d == 4 {
        '4'
    } else if d == 5 {
        '5'
    } else if d == 6 {
        '6'
    } else if d == 7 {
        '7'
    } else if d == 8 {
        '8'
    } else {
        '9'
    }
}

/// Appends the decimal digits of `n`.
pub fn push_decimal(out: &mut Vec<char>, n: u64)
    ensures
        final(out)@ == old(out)@ + decimal(n as nat),
    decreases n,
{
    if n >= 10 {
        push_decimal(out, n / 10);
    }
    out.push(digit_char_exec(n % 10));
}

proof fn lemma_digit_char(d: int)
    requires
        0 <= d < 10,
    ensures
        is_digit(digit_char(d)),
        digit_value(digit_char(d)) == d,
{
}

/// The decimal digits of a number parse back to the number.
pub proof fn lemma_decimal_digits(n: nat)
    ensures
        is_digits(decimal(n)),
        digits_value(decimal(n)) == n,
        decimal(n)[0] != '-' && decimal(n)[0] != '+',
        forall|i: int| 0 <= i < decimal(n).len() ==> !is_unicode_ws(#[trigger] decimal(n)[i])
            && decimal(n)[i] != '/' && !is_ascii_ws(decimal(n)[i]) && decimal(n)[i] != '\n',
    decreases n,
{
    lemma_digit_char((n % 10) as int);
    if n >= 10 {
        lemma_decimal_digits(n / 10);
        let s = decimal(n);
        assert(s.drop_last() == decimal(n / 10));
        assert(s[0] == decimal(n / 10)[0]);
        assert(n == (n / 10) * 10 + n % 10) by (nonlinear_arith);
        assert(s.last() == digit_char((n % 10) as int));
        assert(digits_value(s) == digits_value(s.drop_last()) * 10 + digit_value(s.last()));
        assert(digits_value(s) == (n / 10) * 10 + n % 10);
    } else {
        let s = decimal(n);
        assert(s.drop_last() =~= Seq::<char>::empty());
        assert(n % 10 == n);
        assert(digits_value(s) == digits_value(s.drop_last()) * 10 + digit_value(s.last()));
        assert(digits_value(s.drop_last()) == 0);
    }
}

/// A decimal number read back as an `i64`.
pub proof fn lemma_parse_decimal(n: nat)
    requires
        n <= i64::MAX,
    ensures
        parse_i64(decimal(n)) == Some(n as i64),
{
    lemma_decimal_digits(n);
}

} // verus!
