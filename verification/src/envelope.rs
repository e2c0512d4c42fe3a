//! The encoded-file text: line 1 the file name, line 2 the lowercase hex MD5
//! of the content, then the content in standard padded Base64. Encoding builds
//! it; decoding splits it, checks name and digest, decodes the Base64 and
//! verifies the digest.

use crate::codec::{
    base64_decode, base64_decoded, base64_encode, base64_failure_message, base64_text,
    display_name, documented_display_name, hex_lower, is_base64_symbol, is_base64_text, lemma_base64_text_shape, is_display_of, md5_digest, md5_hex,
    padded_base64_len, Base64Failure,
};
use crate::size_label::{fsize, size_label};
use crate::text::{
    chars_of, find_char, first_index, is_ascii_white_space, is_ascii_whitespace, is_white_space,
    is_whitespace, lemma_first_index, push_char, push_str, string_of, trim, trim_end,
    trim_end_cr, trim_end_cr_range, trim_range, trim_start,
};
use vstd::prelude::*;

verus! {

/// Why a text is not a well-formed encoded file.
#[derive(Clone, Copy, Debug, PartialEq, Eq, Structural)]
pub enum FormatErrorKind {
    /// Fewer than two line breaks.
    MissingLines,
    /// Line 1 is empty once trimmed.
    EmptyName,
    /// Line 2 is not 32 hexadecimal digits once trimmed.
    InvalidMd5,
    /// The body is not valid Base64.
    Base64,
    /// The digest of the decoded body differs from line 2.
    Md5Mismatch,
    /// The text is empty or only whitespace.
    EmptyText,
}

/// An error found in an encoded text.
#[derive(Debug)]
pub enum TextFormatError {
    MissingLines,
    EmptyName,
    InvalidMd5,
    /// The Base64 decoder's own error.
    Base64(Base64Failure),
    Md5Mismatch { expected: String, actual: String },
    EmptyText,
}

impl View for TextFormatError {
    /// The kind; for a digest mismatch the expected and actual digests, for a
    /// Base64 error the decoder's message.
    type V = (FormatErrorKind, Seq<char>, Seq<char>);

    open spec fn view(&self) -> (FormatErrorKind, Seq<char>, Seq<char>) {
        match self {
            TextFormatError::MissingLines => (FormatErrorKind::MissingLines, seq![], seq![]),
            TextFormatError::EmptyName => (FormatErrorKind::EmptyName, seq![], seq![]),
            TextFormatError::InvalidMd5 => (FormatErrorKind::InvalidMd5, seq![], seq![]),
            TextFormatError::Base64(f) => (
                FormatErrorKind::Base64,
                base64_failure_message(*f),
                seq![],
            ),
            TextFormatError::Md5Mismatch { expected, actual } => (
                FormatErrorKind::Md5Mismatch,
                expected@,
                actual@,
            ),
            TextFormatError::EmptyText => (FormatErrorKind::EmptyText, seq![], seq![]),
        }
    }
}

/// An error of kind `k` with nothing more to say.
pub open spec fn plain_error(k: FormatErrorKind) -> (FormatErrorKind, Seq<char>, Seq<char>) {
    (k, seq![], seq![])
}

/// Line 1 trimmed, line 2 trimmed, and all that follows line 2, where the text
/// has two line breaks. A line is trimmed of trailing `\r` and then of
/// surrounding whitespace.
#[verifier::opaque]
pub open spec fn text_parts(t: Seq<char>) -> Option<(Seq<char>, Seq<char>, Seq<char>)> {
    match first_index(t, '\n') {
        None => None,
        Some(i) => {
            let rest = t.subrange(i + 1, t.len() as int);
            match first_index(rest, '\n') {
                None => None,
                Some(j) => Some(
                    (
                        trim(trim_end_cr(t.subrange(0, i))),
                        trim(trim_end_cr(rest.subrange(0, j))),
                        rest.subrange(j + 1, rest.len() as int),
                    ),
                ),
            }
        },
    }
}

/// An ASCII hexadecimal digit, either case.
pub open spec fn is_ascii_hex_digit(c: char) -> bool {
    ||| '0' <= c <= '9'
    ||| 'a' <= c <= 'f'
    ||| 'A' <= c <= 'F'
}

/// Thirty-two hexadecimal digits.
pub open spec fn is_md5_text(m: Seq<char>) -> bool {
    m.len() == 32 && forall|i: int| 0 <= i < m.len() ==> is_ascii_hex_digit(#[trigger] m[i])
}

/// The header check: the raw name and the digest line, or why the header is
/// not well formed.
pub open spec fn header_outcome(t: Seq<char>) -> Result<(Seq<char>, Seq<char>), FormatErrorKind> {
    match text_parts(t) {
        None => Err(FormatErrorKind::MissingLines),
        Some((n, m, _)) => if n.len() == 0 {
            Err(FormatErrorKind::EmptyName)
        } else if !is_md5_text(m) {
            Err(FormatErrorKind::InvalidMd5)
        } else {
            Ok((n, m))
        },
    }
}

/// What the Base64 decoder is given of the body: where the body holds ASCII
/// whitespace, the body without any whitespace; otherwise the body trimmed.
pub open spec fn base64_input(b: Seq<char>) -> Seq<char> {
    if exists|i: int| 0 <= i < b.len() && is_ascii_white_space(#[trigger] b[i]) {
        without_whitespace(b)
    } else {
        trim(b)
    }
}

/// `b` with every whitespace character removed.
pub open spec fn without_whitespace(b: Seq<char>) -> Seq<char>
    decreases b.len(),
{
    if b.len() == 0 {
        b
    } else if is_white_space(b.last()) {
        without_whitespace(b.drop_last())
    } else {
        without_whitespace(b.drop_last()).push(b.last())
    }
}

/// ASCII lowercase of `c`; other characters unchanged.
pub open spec fn ascii_lower(c: char) -> char {
    if 'A' <= c <= 'Z' {
        ((c as u32) + 32) as char
    } else {
        c
    }
}

/// Equality up to ASCII case.
pub open spec fn eq_ignore_ascii_case(a: Seq<char>, b: Seq<char>) -> bool {
    a.len() == b.len() && forall|i: int| 0 <= i < a.len() ==> ascii_lower(a[i]) == ascii_lower(b[i])
}

/// The full decoding of a text: the raw name and the content, or the error.
pub open spec fn decode_outcome(t: Seq<char>) -> Result<
    (Seq<char>, Seq<u8>),
    (FormatErrorKind, Seq<char>, Seq<char>),
> {
    match header_outcome(t) {
        Err(k) => Err(plain_error(k)),
        Ok((n, m)) => match base64_decoded(base64_input(text_parts(t).unwrap().2)) {
            Err(f) => Err((FormatErrorKind::Base64, base64_failure_message(f), seq![])),
            Ok(d) => if eq_ignore_ascii_case(m, hex_lower(md5_digest(d))) {
                Ok((n, d))
            } else {
                Err((FormatErrorKind::Md5Mismatch, m, hex_lower(md5_digest(d))))
            },
        },
    }
}

/// The text that encodes `data` under `name`.
pub open spec fn encoded_text(name: Seq<char>, data: Seq<u8>) -> Seq<char> {
    name + seq!['\n'] + hex_lower(md5_digest(data)) + seq!['\n'] + base64_text(data)
}

/// A name that line 1 carries unchanged: not empty, without line breaks, not
/// starting or ending in whitespace.
pub open spec fn is_line_name(n: Seq<char>) -> bool {
    &&& n.len() > 0
    &&& forall|i: int| 0 <= i < n.len() ==> n[i] != '\n'
    &&& !is_white_space(n[0])
    &&& !is_white_space(n.last())
}

/// `text_parts` from the positions of the first two line breaks.
proof fn lemma_text_parts(t: Seq<char>, i: int, j: int)
    requires
        first_index(t, '\n') == Some(i),
        0 <= i < t.len(),
        first_index(t.subrange(i + 1, t.len() as int), '\n') == Some(j),
        0 <= j < t.len() - i - 1,
    ensures
        text_parts(t) == Some(
            (
                trim(trim_end_cr(t.subrange(0, i))),
                trim(trim_end_cr(t.subrange(i + 1, i + 1 + j))),
                t.subrange(i + j + 2, t.len() as int),
            ),
        ),
{
    reveal(text_parts);
    let rest = t.subrange(i + 1, t.len() as int);
    assert(rest.subrange(0, j) =~= t.subrange(i + 1, i + 1 + j));
    assert(rest.subrange(j + 1, rest.len() as int) =~= t.subrange(i + j + 2, t.len() as int));
}

/// The positions of the first line break of `v` and of the next one after it
/// (counted from just past the first).
fn newline_positions(v: &Vec<char>) -> (r: Option<(usize, usize)>)
    ensures
        r is None <==> text_parts(v@) is None,
        r is Some ==> {
            let (i, j) = r.unwrap();
            &&& i < v@.len()
            &&& j < v@.len() - i - 1
            &&& first_index(v@, '\n') == Some(i as int)
            &&& first_index(v@.subrange(i + 1, v@.len() as int), '\n') == Some(j as int)
        },
{
    reveal(text_parts);
    let len = v.len();
    proof {
        assert(v@.subrange(0, len as int) =~= v@);
    }
    let i = match find_char(v, 0, len, '\n') {
        Some(i) => i,
        None => {
            return None;
        },
    };
    match find_char(v, i + 1, len, '\n') {
        Some(j) => Some((i, j)),
        None => None,
    }
}

/// The ranges of `v` holding the trimmed name, the trimmed digest line, and
/// the start of the body.
fn split_ranges(v: &Vec<char>) -> (r: Option<(usize, usize, usize, usize, usize)>)
    ensures
        match text_parts(v@) {
            None => r is None,
            Some((n, m, b)) => r matches Some((a, e, c, d, s)) && a <= e <= v@.len() && c <= d
                <= v@.len() && s <= v@.len() && v@.subrange(a as int, e as int) == n
                && v@.subrange(c as int, d as int) == m && v@.subrange(s as int, v@.len() as int)
                == b,
        },
{
    let p = newline_positions(v);
    if p.is_none() {
        return None;
    }
    let (i, j) = p.unwrap();
    let len = v.len();
    assert(i < len && j < len - i - 1);
    let name_end = trim_end_cr_range(v, 0, i);
    let (a, e) = trim_range(v, 0, name_end);
    let md5_end = trim_end_cr_range(v, i + 1, i + 1 + j);
    let (c, d) = trim_range(v, i + 1, md5_end);
    proof {
        lemma_text_parts(v@, i as int, j as int);
    }
    Some((a, e, c, d, i + j + 2))
}

/// Splits an encoded text into its trimmed name line, its trimmed digest line
/// and its body.
pub fn split_decode_parts(text: &str) -> (r: Result<(String, String, String), TextFormatError>)
    ensures
        match text_parts(text@) {
            None => r matches Err(e) && e@ == plain_error(FormatErrorKind::MissingLines),
            Some((n, m, b)) => r matches Ok((rn, rm, rb)) && rn@ == n && rm@ == m && rb@ == b,
        },
{
    let v = chars_of(text);
    match split_ranges(&v) {
        None => Err(TextFormatError::MissingLines),
        Some((a, e, c, d, s)) => Ok(
            (string_of(&v, a, e), string_of(&v, c, d), string_of(&v, s, v.len())),
        ),
    }
}

/// Whether `v[lo..hi]` is 32 hexadecimal digits.
fn check_md5_text(v: &Vec<char>, lo: usize, hi: usize) -> (ok: bool)
    requires
        lo <= hi <= v@.len(),
    ensures
        ok == is_md5_text(v@.subrange(lo as int, hi as int)),
{
    let ghost m = v@.subrange(lo as int, hi as int);
    if hi - lo != 32 {
        return false;
    }
    let mut i = lo;
    while i < hi
        invariant
            lo <= i <= hi <= v@.len(),
            hi - lo == 32,
            m == v@.subrange(lo as int, hi as int),
            forall|k: int| 0 <= k < i - lo ==> is_ascii_hex_digit(#[trigger] m[k]),
        decreases hi - i,
    {
        let ch = v[i];
        if !(('0' <= ch && ch <= '9') || ('a' <= ch && ch <= 'f') || ('A' <= ch && ch <= 'F')) {
            assert(!is_ascii_hex_digit(m[i - lo]));
            return false;
        }
        i = i + 1;
    }
    true
}

/// The header check of `v`, with the ranges of name and digest line and the
/// start of the body when it passes.
fn check_header(v: &Vec<char>) -> (r: Result<(usize, usize, usize, usize, usize), TextFormatError>)
    ensures
        match header_outcome(v@) {
            Err(k) => r matches Err(e) && e@ == plain_error(k),
            Ok((n, m)) => r matches Ok((a, e, c, d, s)) && a <= e <= v@.len() && c <= d
                <= v@.len() && s <= v@.len() && v@.subrange(a as int, e as int) == n
                && v@.subrange(c as int, d as int) == m && v@.subrange(s as int, v@.len() as int)
                == text_parts(v@).unwrap().2,
        },
{
    match split_ranges(v) {
        None => Err(TextFormatError::MissingLines),
        Some((a, e, c, d, s)) => {
            if a == e {
                Err(TextFormatError::EmptyName)
            } else if !check_md5_text(v, c, d) {
                Err(TextFormatError::InvalidMd5)
            } else {
                Ok((a, e, c, d, s))
            }
        },
    }
}

/// Whether `v[s..]` holds an ASCII whitespace character.
fn has_ascii_whitespace(v: &Vec<char>, s: usize) -> (r: bool)
    requires
        s <= v@.len(),
    ensures
        r == exists|i: int|
            0 <= i < v@.len() - s && is_ascii_white_space(
                #[trigger] v@.subrange(s as int, v@.len() as int)[i],
            ),
{
    let len = v.len();
    let ghost b = v@.subrange(s as int, len as int);
    let mut i = s;
    while i < len
        invariant
            s <= i <= len == v@.len(),
            b == v@.subrange(s as int, len as int),
            forall|k: int| 0 <= k < i - s ==> !is_ascii_white_space(#[trigger] b[k]),
        decreases len - i,
    {
        if is_ascii_whitespace(v[i]) {
            assert(is_ascii_white_space(b[i - s]));
            return true;
        }
        i = i + 1;
    }
    false
}

/// The string handed to the Base64 decoder for the body `v[s..]`.
fn base64_input_of(v: &Vec<char>, s: usize) -> (r: String)
    requires
        s <= v@.len(),
    ensures
        r@ == base64_input(v@.subrange(s as int, v@.len() as int)),
{
    let len = v.len();
    let ghost b = v@.subrange(s as int, len as int);
    if has_ascii_whitespace(v, s) {
        let mut out = String::new();
        let mut k = s;
        while k < len
            invariant
                s <= k <= len == v@.len(),
                b == v@.subrange(s as int, len as int),
                out@ == without_whitespace(b.take(k - s)),
            decreases len - k,
        {
            proof {
                assert(b.take(k - s + 1).drop_last() =~= b.take(k - s));
            }
            if !is_whitespace(v[k]) {
                push_char(&mut out, v[k]);
            }
            k = k + 1;
        }
        proof {
            assert(b.take(len - s) =~= b);
        }
        out
    } else {
        let (a, e) = trim_range(v, s, len);
        string_of(v, a, e)
    }
}

/// Whether `a` and `b` are equal up to ASCII case.
fn eq_ignore_case(a: &Vec<char>, lo: usize, hi: usize, b: &Vec<char>) -> (r: bool)
    requires
        lo <= hi <= a@.len(),
    ensures
        r == eq_ignore_ascii_case(a@.subrange(lo as int, hi as int), b@),
{
    let ghost x = a@.subrange(lo as int, hi as int);
    if hi - lo != b.len() {
        return false;
    }
    let mut i: usize = 0;
    while i < b.len()
        invariant
            lo <= hi <= a@.len(),
            hi - lo == b@.len(),
            i <= b@.len(),
            x == a@.subrange(lo as int, hi as int),
            forall|k: int| 0 <= k < i ==> ascii_lower(x[k]) == ascii_lower(b@[k]),
        decreases b@.len() - i,
    {
        if lower(a[lo + i]) != lower(b[i]) {
            return false;
        }
        i = i + 1;
    }
    true
}

fn lower(c: char) -> (r: char)
    ensures
        r == ascii_lower(c),
{
    if 'A' <= c && c <= 'Z' {
        let u = c as u32 + 32;
        let b = u as u8;
        b as char
    } else {
        c
    }
}

/// Decodes an encoded text into its name line (as written) and its content,
/// checking the header, the Base64 body and the digest. What the decoder was
/// given of an accepted body is made of Base64 symbols only.
pub fn decode_text(text: &str) -> (r: Result<(String, Vec<u8>), TextFormatError>)
    ensures
        match decode_outcome(text@) {
            Ok((n, d)) => r matches Ok((rn, rd)) && rn@ == n && rd@ == d,
            Err(e) => r matches Err(re) && re@ == e,
        },
        r is Ok ==> is_base64_text(base64_input(text_parts(text@).unwrap().2)),
{
    let v = chars_of(text);
    let (a, e, c, d, s) = match check_header(&v) {
        Ok(ranges) => ranges,
        Err(err) => {
            return Err(err);
        },
    };
    let input = base64_input_of(&v, s);
    let data = match base64_decode(input.as_str()) {
        Ok(data) => data,
        Err(err) => {
            return Err(TextFormatError::Base64(err));
        },
    };
    let actual = md5_hex(data.as_slice());
    check_digest(string_of(&v, a, e), data, string_of(&v, c, d), actual)
}

/// The last step of decoding: the content is accepted when the digest line
/// `expected` equals, up to ASCII case, the hex digest `actual` computed from
/// it; otherwise both digests are reported.
pub fn check_digest(name: String, data: Vec<u8>, expected: String, actual: String) -> (r: Result<
    (String, Vec<u8>),
    TextFormatError,
>)
    ensures
        eq_ignore_ascii_case(expected@, actual@) ==> (r matches Ok((n, d)) && n@ == name@ && d@
            == data@),
        !eq_ignore_ascii_case(expected@, actual@) ==> (r matches Err(e) && e@ == (
            FormatErrorKind::Md5Mismatch,
            expected@,
            actual@,
        )),
{
    let x = chars_of(expected.as_str());
    let y = chars_of(actual.as_str());
    proof {
        assert(x@.subrange(0, x@.len() as int) =~= x@);
    }
    if eq_ignore_case(&x, 0, x.len(), &y) {
        Ok((name, data))
    } else {
        Err(TextFormatError::Md5Mismatch { expected, actual })
    }
}


/// Parses an encoded text into the suggested file name and the encoded
/// bytes, checking the header, the Base64 body and the MD5 digest. The name is
/// the last path component of line 1. What the decoder was given of an
/// accepted body is made of Base64 symbols only.
pub fn parse_decode_text(text: &str) -> (r: Result<(String, Vec<u8>), TextFormatError>)
    ensures
        match decode_outcome(text@) {
            Ok((n, d)) => r matches Ok((rn, rd)) && rd@ == d && is_display_of(rn@, n),
            Err(e) => r matches Err(re) && re@ == e,
        },
        r is Ok ==> is_base64_text(base64_input(text_parts(text@).unwrap().2)),
{
    match decode_text(text) {
        Ok((name, data)) => Ok((display_name(name.as_str()), data)),
        Err(e) => Err(e),
    }
}

/// Reads only the header of an encoded text: the suggested file name (last
/// path component of line 1) and the digest line as written; the body is not
/// decoded.
pub fn peek_decode_header(text: &str) -> (r: Result<(String, String), TextFormatError>)
    ensures
        match header_outcome(text@) {
            Ok((n, m)) => r matches Ok((rn, rm)) && rm@ == m && is_display_of(rn@, n),
            Err(k) => r matches Err(e) && e@ == plain_error(k),
        },
{
    let v = chars_of(text);
    match check_header(&v) {
        Ok((a, e, c, d, _)) => Ok((display_name(string_of(&v, a, e).as_str()), string_of(&v, c, d))),
        Err(err) => Err(err),
    }
}

/// The header check and the full decoding agree: a header error is the
/// decoding error, and a text that decodes has a header with the same name,
/// so the two give the same label wherever the label is documented.
pub proof fn lemma_header_agrees_with_decode(t: Seq<char>)
    ensures
        decode_outcome(t) is Ok && documented_display_name(decode_outcome(t)->Ok_0.0) is Some
            ==> forall|l1: Seq<char>, l2: Seq<char>|
            #![trigger is_display_of(l1, decode_outcome(t)->Ok_0.0), is_display_of(l2, header_outcome(t)->Ok_0.0)]
            is_display_of(l1, decode_outcome(t)->Ok_0.0) && is_display_of(
                l2,
                header_outcome(t)->Ok_0.0,
            ) ==> l1 == l2,
        header_outcome(t) is Err ==> decode_outcome(t) == Err::<(Seq<char>, Seq<u8>), _>(
            plain_error(header_outcome(t)->Err_0),
        ),
        decode_outcome(t) is Ok ==> header_outcome(t) is Ok && header_outcome(t)->Ok_0.0
            == decode_outcome(t)->Ok_0.0,
        header_outcome(t) is Ok && decode_outcome(t) is Err ==> decode_outcome(t)->Err_0.0
            == FormatErrorKind::Base64 || decode_outcome(t)->Err_0.0
            == FormatErrorKind::Md5Mismatch,
{
}

/// A text decodes only when its digest line is, up to ASCII case, the MD5 of
/// the decoded content: what is restored is what was digested.
pub proof fn lemma_decoded_content_matches_digest(t: Seq<char>)
    ensures
        decode_outcome(t) is Ok ==> header_outcome(t) is Ok && eq_ignore_ascii_case(
            header_outcome(t)->Ok_0.1,
            hex_lower(md5_digest(decode_outcome(t)->Ok_0.1)),
        ),
{
}

/// Trimming leaves alone a sequence that neither starts nor ends with
/// whitespace.
proof fn lemma_trim_unchanged(s: Seq<char>)
    requires
        s.len() > 0 ==> !is_white_space(s[0]) && !is_white_space(s.last()),
    ensures
        trim(s) == s,
        trim_end_cr(s) == s,
{
    reveal(trim);
    reveal(trim_end_cr);
    assert(trim_start(s) == s);
    assert(trim_end(s) == s);
}

/// Every lowercase hex digit is an ASCII hex digit, neither whitespace nor a
/// line break.
proof fn lemma_hex_text(b: Seq<u8>)
    ensures
        forall|i: int|
            0 <= i < hex_lower(b).len() ==> is_ascii_hex_digit(#[trigger] hex_lower(b)[i])
                && !is_white_space(hex_lower(b)[i]) && hex_lower(b)[i] != '\n',
{
    assert forall|i: int| 0 <= i < hex_lower(b).len() implies is_ascii_hex_digit(
        #[trigger] hex_lower(b)[i],
    ) && !is_white_space(hex_lower(b)[i]) && hex_lower(b)[i] != '\n' by {
        let n: nat = if i % 2 == 0 {
            (b[i / 2] / 16) as nat
        } else {
            (b[i / 2] % 16) as nat
        };
        assert(n < 16);
        assert(hex_lower(b)[i] == crate::codec::hex_digit_char(n));
    }
}

/// Decoding the text that encodes `data` under a `name` that line 1 carries unchanged gives back
/// `name` and `data`, given the digest's length and what the Base64 engine
/// promises of its own output.
proof fn lemma_encoded_text_decodes(name: Seq<char>, data: Seq<u8>)
    requires
        is_line_name(name),
        md5_digest(data).len() == 16,
        forall|i: int|
            0 <= i < base64_text(data).len() ==> is_base64_symbol(#[trigger] base64_text(data)[i]),
        base64_decoded(base64_text(data)) == Ok::<Seq<u8>, Base64Failure>(data),
    ensures
        header_outcome(encoded_text(name, data)) == Ok::<_, FormatErrorKind>(
            (name, hex_lower(md5_digest(data))),
        ),
        decode_outcome(encoded_text(name, data)) == Ok::<_, (FormatErrorKind, Seq<char>, Seq<char>)>(
            (name, data),
        ),
{
    let h = hex_lower(md5_digest(data));
    let b = base64_text(data);
    let t = encoded_text(name, data);
    let n = name.len() as int;
    lemma_hex_text(md5_digest(data));
    assert(h.len() == 32);
    assert(t.len() == n + 34 + b.len());
    // First line break: right after the name.
    assert forall|j: int| 0 <= j < n implies t[j] != '\n' by {
        assert(t[j] == name[j]);
    }
    assert(t[n] == '\n');
    lemma_first_index(t, '\n', n);
    // Second line break: right after the digest.
    let rest = t.subrange(n + 1, t.len() as int);
    assert forall|j: int| 0 <= j < 32 implies rest[j] != '\n' by {
        assert(rest[j] == h[j]);
    }
    assert(rest[32] == '\n');
    lemma_first_index(rest, '\n', 32);
    lemma_text_parts(t, n, 32);
    assert(t.subrange(0, n) =~= name);
    assert(t.subrange(n + 1, n + 33) =~= h);
    assert(t.subrange(n + 34, t.len() as int) =~= b);
    lemma_trim_unchanged(name);
    lemma_trim_unchanged(h);
    assert(is_md5_text(h));
    // The body has no whitespace, so the decoder is given the body itself.
    assert forall|i: int| 0 <= i < b.len() implies !is_white_space(#[trigger] b[i])
        && !is_ascii_white_space(b[i]) by {
        assert(is_base64_symbol(b[i]));
    }
    lemma_trim_unchanged(b);
    assert(base64_input(b) == b);
    assert(eq_ignore_ascii_case(h, h));
}

/// An encoded file: its name, its text, and the size labels of the source
/// and of the Base64 body.
#[derive(Debug)]
pub struct EncodedEntry {
    pub name: String,
    pub content: String,
    pub source_size_label: String,
    pub b64_size_label: String,
}

/// Lays out an encoded text from its three parts: the name, a line break,
/// the hex digest, a line break, the Base64 body; also counts the body's
/// characters.
pub fn assemble_text(name: &str, digest: &str, body: &str) -> (r: (String, usize))
    ensures
        r.0@ == name@ + seq!['\n'] + digest@ + seq!['\n'] + body@,
        r.1 == body@.len(),
{
    let mut content = String::new();
    push_str(&mut content, name);
    push_char(&mut content, '\n');
    push_str(&mut content, digest);
    push_char(&mut content, '\n');
    let body_len = push_str(&mut content, body);
    (content, body_len)
}

/// The encoded text and the length of its Base64 body.
fn encode_parts(name: &str, data: &[u8]) -> (r: (String, usize))
    requires
        padded_base64_len(data@.len()) <= usize::MAX,
    ensures
        r.0@ == encoded_text(name@, data@),
        r.1 == padded_base64_len(data@.len()),
        is_line_name(name@) ==> decode_outcome(r.0@) == Ok::<
            _,
            (FormatErrorKind, Seq<char>, Seq<char>),
        >((name@, data@)),
        is_line_name(name@) ==> header_outcome(r.0@) == Ok::<_, FormatErrorKind>(
            (name@, hex_lower(md5_digest(data@))),
        ),
{
    let digest = md5_hex(data);
    let b64 = base64_encode(data);
    proof {
        lemma_base64_text_shape(data@);
    }
    let (content, b64_len) = assemble_text(name, digest.as_str(), b64.as_str());
    proof {
        assert(content@ =~= encoded_text(name@, data@));
        if is_line_name(name@) {
            lemma_hex_text(md5_digest(data@));
            lemma_encoded_text_decodes(name@, data@);
        }
    }
    (content, b64_len)
}

/// Encodes `data` under `name`: the name, a line break, the lowercase hex MD5
/// of `data`, a line break, and `data` in standard padded Base64. For a name
/// without line breaks or surrounding whitespace, decoding the result gives
/// back the name (as line 1) and the data.
pub fn encode_text(name: &str, data: &[u8]) -> (text: String)
    requires
        padded_base64_len(data@.len()) <= usize::MAX,
    ensures
        text@ == encoded_text(name@, data@),
        is_line_name(name@) ==> decode_outcome(text@) == Ok::<
            _,
            (FormatErrorKind, Seq<char>, Seq<char>),
        >((name@, data@)),
        is_line_name(name@) ==> header_outcome(text@) == Ok::<_, FormatErrorKind>(
            (name@, hex_lower(md5_digest(data@))),
        ),
{
    encode_parts(name, data).0
}

/// Encodes one file's content under its name, with the size labels of the
/// source (`source_bytes`) and of the Base64 body.
pub fn encode_entry(name: String, data: &[u8], source_bytes: u64) -> (e: EncodedEntry)
    requires
        padded_base64_len(data@.len()) <= usize::MAX,
    ensures
        e.name@ == name@,
        e.content@ == encoded_text(name@, data@),
        e.source_size_label@ == size_label(source_bytes as nat),
        e.b64_size_label@ == size_label(padded_base64_len(data@.len())),
        is_line_name(name@) ==> decode_outcome(e.content@) == Ok::<
            _,
            (FormatErrorKind, Seq<char>, Seq<char>),
        >((name@, data@)),
{
    let (content, b64_len) = encode_parts(name.as_str(), data);
    EncodedEntry {
        name,
        content,
        source_size_label: fsize(source_bytes),
        b64_size_label: fsize(b64_len as u64),
    }
}

/// What a pasted encoded text shows before it is decoded: the suggested name,
/// the digest line, the text's length in bytes and its size label.
#[derive(Debug)]
pub struct PasteSummary {
    pub name: String,
    pub md5: String,
    pub chars: u64,
    pub size_label: String,
}

/// Summarises a pasted encoded text from its header alone; a text that is
/// empty or only whitespace is refused.
pub fn paste_summary(text: &str) -> (r: Result<PasteSummary, TextFormatError>)
    ensures
        trim(text@).len() == 0 ==> (r matches Err(e) && e@ == plain_error(
            FormatErrorKind::EmptyText,
        )),
        trim(text@).len() > 0 ==> match header_outcome(text@) {
            Ok((n, m)) => r matches Ok(p) && p.md5@ == m && is_display_of(p.name@, n) && p.chars == text.len() as u64 && p.size_label@ == size_label(
                p.chars as nat,
            ),
            Err(k) => r matches Err(e) && e@ == plain_error(k),
        },
{
    let v = chars_of(text);
    let (a, e) = trim_range(&v, 0, v.len());
    proof {
        assert(v@.subrange(0, v@.len() as int) =~= v@);
    }
    if a == e {
        return Err(TextFormatError::EmptyText);
    }
    let (name, md5) = match peek_decode_header(text) {
        Ok(header) => header,
        Err(err) => {
            return Err(err);
        },
    };
    let chars = text.len() as u64;
    Ok(PasteSummary { name, md5, chars, size_label: fsize(chars) })
}

impl TextFormatError {
    /// The message shown for the error.
    pub fn message(&self) -> (m: String)
        ensures
            m@ == match self {
                TextFormatError::MissingLines => "Need at least 3 lines (name, MD5, base64)."@,
                TextFormatError::EmptyName => "Filename on line 1 is empty."@,
                TextFormatError::InvalidMd5 => "Invalid MD5 on line 2."@,
                TextFormatError::Base64(f) => "Base64 decode failed: "@ + base64_failure_message(
                    *f,
                ),
                TextFormatError::Md5Mismatch { expected, actual } => "MD5 mismatch! Expected="@
                    + expected@ + " Actual="@ + actual@,
                TextFormatError::EmptyText => "Clipboard is empty."@,
            },
    {
        let mut m = String::new();
        match self {
            TextFormatError::MissingLines => {
                push_str(&mut m, "Need at least 3 lines (name, MD5, base64).");
            },
            TextFormatError::EmptyName => {
                push_str(&mut m, "Filename on line 1 is empty.");
            },
            TextFormatError::InvalidMd5 => {
                push_str(&mut m, "Invalid MD5 on line 2.");
            },
            TextFormatError::Base64(f) => {
                push_str(&mut m, "Base64 decode failed: ");
                push_str(&mut m, f.message().as_str());
            },
            TextFormatError::Md5Mismatch { expected, actual } => {
                push_str(&mut m, "MD5 mismatch! Expected=");
                push_str(&mut m, expected.as_str());
                push_str(&mut m, " Actual=");
                push_str(&mut m, actual.as_str());
            },
            TextFormatError::EmptyText => {
                push_str(&mut m, "Clipboard is empty.");
            },
        }
        proof {
            assert(Seq::<char>::empty() + "Clipboard is empty."@ =~= "Clipboard is empty."@);
            assert(Seq::<char>::empty() + "Invalid MD5 on line 2."@ =~= "Invalid MD5 on line 2."@);
            assert(Seq::<char>::empty() + "Filename on line 1 is empty."@
                =~= "Filename on line 1 is empty."@);
            assert(Seq::<char>::empty() + "Need at least 3 lines (name, MD5, base64)."@
                =~= "Need at least 3 lines (name, MD5, base64)."@);
        }
        m
    }
}


/// No whitespace is left once it is removed.
proof fn lemma_without_whitespace_clean(b: Seq<char>)
    ensures
        forall|i: int|
            0 <= i < without_whitespace(b).len() ==> !is_white_space(
                #[trigger] without_whitespace(b)[i],
            ),
    decreases b.len(),
{
    if b.len() > 0 {
        let prev = without_whitespace(b.drop_last());
        lemma_without_whitespace_clean(b.drop_last());
        assert forall|i: int| 0 <= i < without_whitespace(b).len() implies !is_white_space(
            #[trigger] without_whitespace(b)[i],
        ) by {
            if i < prev.len() {
                assert(without_whitespace(b)[i] == prev[i]);
            }
        }
    }
}

/// A Base64 body broken across lines (or otherwise interspersed with ASCII
/// whitespace) reaches the decoder exactly as the same body written without
/// whitespace would.
pub proof fn lemma_wrapped_body_decodes_as_unwrapped(b: Seq<char>)
    requires
        exists|i: int| 0 <= i < b.len() && is_ascii_white_space(#[trigger] b[i]),
    ensures
        base64_input(b) == base64_input(without_whitespace(b)),
        base64_input(b) == without_whitespace(b),
{
    let c = without_whitespace(b);
    lemma_without_whitespace_clean(b);
    assert forall|i: int| 0 <= i < c.len() implies !is_ascii_white_space(#[trigger] c[i]) by {
        assert(!is_white_space(c[i]));
    }
    lemma_trim_unchanged(c);
}


/// A digest line compared up to ASCII case: two texts that differ only in
/// the case of line 2 decode alike, to the same label wherever the label is
/// documented.
pub proof fn lemma_digest_case_insensitive(t1: Seq<char>, t2: Seq<char>)
    requires
        text_parts(t1) is Some,
        text_parts(t2) is Some,
        text_parts(t1).unwrap().0 == text_parts(t2).unwrap().0,
        text_parts(t1).unwrap().2 == text_parts(t2).unwrap().2,
        eq_ignore_ascii_case(text_parts(t1).unwrap().1, text_parts(t2).unwrap().1),
    ensures
        decode_outcome(t1) is Ok <==> decode_outcome(t2) is Ok,
        decode_outcome(t1) is Ok ==> decode_outcome(t1) == decode_outcome(t2),
        decode_outcome(t1) is Ok && documented_display_name(decode_outcome(t1)->Ok_0.0) is Some
            ==> forall|l1: Seq<char>, l2: Seq<char>|
            #![trigger is_display_of(l1, decode_outcome(t1)->Ok_0.0), is_display_of(l2, decode_outcome(t2)->Ok_0.0)]
            is_display_of(l1, decode_outcome(t1)->Ok_0.0) && is_display_of(
                l2,
                decode_outcome(t2)->Ok_0.0,
            ) ==> l1 == l2,
{
    let m1 = text_parts(t1).unwrap().1;
    let m2 = text_parts(t2).unwrap().1;
    assert forall|i: int| 0 <= i < m1.len() implies is_ascii_hex_digit(m1[i])
        == is_ascii_hex_digit(m2[i]) by {
        lemma_ascii_lower_hex(m1[i], m2[i]);
    }
    if is_md5_text(m1) {
        assert(is_md5_text(m2));
    }
    if is_md5_text(m2) {
        assert(is_md5_text(m1));
    }
}

proof fn lemma_ascii_lower_hex(a: char, b: char)
    requires
        ascii_lower(a) == ascii_lower(b),
    ensures
        is_ascii_hex_digit(a) == is_ascii_hex_digit(b),
{
    let x = a as u32;
    let y = b as u32;
    let lx = ascii_lower(a) as u32;
    let ly = ascii_lower(b) as u32;
    assert('A' <= a <= 'Z' ==> lx == x + 32);
    assert(!('A' <= a <= 'Z') ==> lx == x);
    assert('A' <= b <= 'Z' ==> ly == y + 32);
    assert(!('A' <= b <= 'Z') ==> ly == y);
}

/// Removing whitespace from a text without any leaves it unchanged.
proof fn lemma_without_whitespace_id(x: Seq<char>)
    requires
        forall|i: int| 0 <= i < x.len() ==> !is_white_space(#[trigger] x[i]),
    ensures
        without_whitespace(x) == x,
    decreases x.len(),
{
    if x.len() > 0 {
        lemma_without_whitespace_id(x.drop_last());
        assert(x.drop_last().push(x.last()) =~= x);
    }
}

/// Removing whitespace, seen from the front of the text.
proof fn lemma_without_whitespace_first(b: Seq<char>)
    requires
        b.len() > 0,
    ensures
        without_whitespace(b) == if is_white_space(b[0]) {
            without_whitespace(b.drop_first())
        } else {
            seq![b[0]] + without_whitespace(b.drop_first())
        },
    decreases b.len(),
{
    if b.len() > 1 {
        let d = b.drop_last();
        lemma_without_whitespace_first(d);
        assert(d.drop_first() =~= b.drop_first().drop_last());
        assert(b.drop_first().last() == b.last());
        if is_white_space(b.last()) {
        } else {
            let w = without_whitespace(d.drop_first());
            assert((seq![b[0]] + w).push(b.last()) =~= seq![b[0]] + w.push(b.last()));
        }
    } else {
        assert(b.drop_first() =~= Seq::<char>::empty());
        assert(b.drop_last() =~= Seq::<char>::empty());
        assert(seq![b[0]] + Seq::<char>::empty() =~= Seq::<char>::empty().push(b.last()));
    }
}

/// Trimming whitespace changes nothing once all whitespace is removed.
proof fn lemma_without_whitespace_trim(b: Seq<char>)
    ensures
        without_whitespace(trim(b)) == without_whitespace(b),
{
    reveal(trim);
    lemma_without_whitespace_trim_start(b);
    lemma_without_whitespace_trim_end(trim_start(b));
}

/// Leading whitespace is removed anyway.
proof fn lemma_without_whitespace_trim_start(b: Seq<char>)
    ensures
        without_whitespace(trim_start(b)) == without_whitespace(b),
    decreases b.len(),
{
    if b.len() > 0 && is_white_space(b[0]) {
        lemma_without_whitespace_first(b);
        lemma_without_whitespace_trim_start(b.drop_first());
    }
}

/// Trailing whitespace is removed anyway.
proof fn lemma_without_whitespace_trim_end(b: Seq<char>)
    ensures
        without_whitespace(trim_end(b)) == without_whitespace(b),
    decreases b.len(),
{
    if b.len() > 0 && is_white_space(b.last()) {
        lemma_without_whitespace_trim_end(b.drop_last());
    }
}

/// Whitespace in the body does not matter: two texts with the same name and
/// digest lines whose bodies differ only in whitespace, the second holding
/// ASCII whitespace (a line break, say) unless the bodies are equal, decode
/// alike. The first body's decoder input is made of Base64 symbols, as it is
/// for every text that `parse_decode_text` accepts.
pub proof fn lemma_body_whitespace_ignored(t1: Seq<char>, t2: Seq<char>)
    requires
        text_parts(t1) is Some,
        text_parts(t2) is Some,
        text_parts(t1).unwrap().0 == text_parts(t2).unwrap().0,
        text_parts(t1).unwrap().1 == text_parts(t2).unwrap().1,
        is_base64_text(base64_input(text_parts(t1).unwrap().2)),
        without_whitespace(text_parts(t2).unwrap().2) == without_whitespace(
            text_parts(t1).unwrap().2,
        ),
        text_parts(t2).unwrap().2 == text_parts(t1).unwrap().2 || exists|i: int|
            0 <= i < text_parts(t2).unwrap().2.len() && is_ascii_white_space(
                #[trigger] text_parts(t2).unwrap().2[i],
            ),
    ensures
        decode_outcome(t1) == decode_outcome(t2),
{
    let b1 = text_parts(t1).unwrap().2;
    let b2 = text_parts(t2).unwrap().2;
    if b1 != b2 {
        assert(base64_input(b2) == without_whitespace(b1));
        if exists|i: int| 0 <= i < b1.len() && is_ascii_white_space(#[trigger] b1[i]) {
            assert(base64_input(b1) == without_whitespace(b1));
        } else {
            let c = trim(b1);
            assert(base64_input(b1) == c);
            assert forall|i: int| 0 <= i < c.len() implies !is_white_space(#[trigger] c[i]) by {
                assert(is_base64_symbol(c[i]));
            }
            lemma_without_whitespace_id(c);
            lemma_without_whitespace_trim(b1);
        }
        assert(base64_input(b1) == base64_input(b2));
    }
}

} // verus!
