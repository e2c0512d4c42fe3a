//! The outside computations the format rests on: MD5 (md-5), lowercase hex
//! (hex), standard padded Base64 (base64) and the final component of a path
//! (std). Each is reached through one small wrapper whose contract says what
//! the crate's documentation promises.

use base64::engine::general_purpose::STANDARD;
use base64::DecodeError;
use base64::Engine;
use md5::{Digest, Md5};
use std::path::Path;
use crate::text::{decimal, last_index, lemma_last_index_facts, push_decimal, push_str};
use vstd::prelude::*;

verus! {

/// The MD5 digest of `data`, as computed by `md5::Md5`.
pub uninterp spec fn md5_digest(data: Seq<u8>) -> Seq<u8>;

/// The standard Base64 symbol (RFC 4648) for a six-bit value `v < 64`.
pub open spec fn base64_symbol(v: nat) -> char {
    if v < 26 {
        (v + 65) as char
    } else if v < 52 {
        (v + 71) as char
    } else if v < 62 {
        (v - 4) as char
    } else if v == 62 {
        '+'
    } else {
        '/'
    }
}

/// The standard padded Base64 text of `data` (RFC 4648): each group of three
/// bytes, high bits first, becomes four symbols of six bits each; a final
/// group of one or two bytes is padded with zero bits and `=`.
pub open spec fn base64_text(d: Seq<u8>) -> Seq<char>
    decreases d.len(),
{
    if d.len() == 0 {
        seq![]
    } else if d.len() == 1 {
        seq![
            base64_symbol((d[0] / 4) as nat),
            base64_symbol(((d[0] % 4) * 16) as nat),
            '=',
            '=',
        ]
    } else if d.len() == 2 {
        seq![
            base64_symbol((d[0] / 4) as nat),
            base64_symbol(((d[0] % 4) * 16 + d[1] / 16) as nat),
            base64_symbol(((d[1] % 16) * 4) as nat),
            '=',
        ]
    } else {
        seq![
            base64_symbol((d[0] / 4) as nat),
            base64_symbol(((d[0] % 4) * 16 + d[1] / 16) as nat),
            base64_symbol(((d[1] % 16) * 4 + d[2] / 64) as nat),
            base64_symbol((d[2] % 64) as nat),
        ] + base64_text(d.subrange(3, d.len() as int))
    }
}

/// Base64 text is four symbols per started group of three bytes, all from
/// the alphabet or `=`.
pub proof fn lemma_base64_text_shape(d: Seq<u8>)
    ensures
        base64_text(d).len() == padded_base64_len(d.len()),
        forall|i: int| 0 <= i < base64_text(d).len() ==> is_base64_symbol(#[trigger] base64_text(d)[i]),
    decreases d.len(),
{
    if d.len() >= 3 {
        let rest = d.subrange(3, d.len() as int);
        lemma_base64_text_shape(rest);
        let t = base64_text(d);
        assert forall|i: int| 0 <= i < t.len() implies is_base64_symbol(#[trigger] t[i]) by {
            if i >= 4 {
                assert(t[i] == base64_text(rest)[i - 4]);
            }
        }
    }
}

/// What `base64`'s `STANDARD` engine decodes from the UTF-8 bytes of the text
/// `input`: the bytes, or the error it reports.
pub uninterp spec fn base64_decoded(input: Seq<char>) -> Result<Seq<u8>, Base64Failure>;

/// Why the Base64 engine refused an input (its `DecodeError`, variant for
/// variant).
#[derive(Clone, Copy, Debug, PartialEq, Eq, Structural)]
pub enum Base64Failure {
    /// A byte outside the alphabet: offset and byte.
    InvalidByte(usize, u8),
    /// A number of symbols that no encoding produces.
    InvalidLength(usize),
    /// A last symbol with nonzero bits past the data: offset and byte.
    InvalidLastSymbol(usize, u8),
    /// Padding missing, misplaced or excessive.
    InvalidPadding,
}

/// The text the engine gives a failure (`DecodeError`'s `Display`).
pub open spec fn base64_failure_message(f: Base64Failure) -> Seq<char> {
    match f {
        Base64Failure::InvalidByte(index, byte) => "Invalid symbol "@ + decimal(byte as nat)
            + ", offset "@ + decimal(index as nat) + "."@,
        Base64Failure::InvalidLength(len) => "Invalid input length: "@ + decimal(len as nat),
        Base64Failure::InvalidLastSymbol(index, byte) => "Invalid last symbol "@ + decimal(
            byte as nat,
        ) + ", offset "@ + decimal(index as nat) + "."@,
        Base64Failure::InvalidPadding => "Invalid padding"@,
    }
}

impl Base64Failure {
    /// The text the engine gives this failure.
    pub fn message(&self) -> (m: String)
        ensures
            m@ == base64_failure_message(*self),
    {
        let mut m = String::new();
        match *self {
            Base64Failure::InvalidByte(index, byte) => {
                push_str(&mut m, "Invalid symbol ");
                push_decimal(&mut m, byte as u128);
                push_str(&mut m, ", offset ");
                push_decimal(&mut m, index as u128);
                push_str(&mut m, ".");
            },
            Base64Failure::InvalidLength(len) => {
                push_str(&mut m, "Invalid input length: ");
                push_decimal(&mut m, len as u128);
            },
            Base64Failure::InvalidLastSymbol(index, byte) => {
                push_str(&mut m, "Invalid last symbol ");
                push_decimal(&mut m, byte as u128);
                push_str(&mut m, ", offset ");
                push_decimal(&mut m, index as u128);
                push_str(&mut m, ".");
            },
            Base64Failure::InvalidPadding => {
                push_str(&mut m, "Invalid padding");
            },
        }
        proof {
            assert(Seq::<char>::empty() + "Invalid padding"@ =~= "Invalid padding"@);
        }
        m
    }
}

/// The lowercase hexadecimal digit for `n < 16`.
pub open spec fn hex_digit_char(n: nat) -> char {
    if n < 10 {
        (n + 48) as char
    } else {
        (n + 87) as char
    }
}

/// Lowercase hexadecimal text of `bytes`: two digits per byte, high nibble
/// first.
pub open spec fn hex_lower(bytes: Seq<u8>) -> Seq<char> {
    Seq::new(
        2 * bytes.len(),
        |i: int|
            if i % 2 == 0 {
                hex_digit_char((bytes[i / 2] / 16) as nat)
            } else {
                hex_digit_char((bytes[i / 2] % 16) as nat)
            },
    )
}

/// A symbol of the standard Base64 alphabet, or the padding `=`.
pub open spec fn is_base64_symbol(c: char) -> bool {
    ||| 'A' <= c <= 'Z'
    ||| 'a' <= c <= 'z'
    ||| '0' <= c <= '9'
    ||| c == '+'
    ||| c == '/'
    ||| c == '='
}

/// A text made of Base64 symbols only.
pub open spec fn is_base64_text(s: Seq<char>) -> bool {
    forall|i: int| 0 <= i < s.len() ==> is_base64_symbol(#[trigger] s[i])
}

/// The length of the padded Base64 text of `n` bytes: four characters for
/// every started group of three bytes.
pub open spec fn padded_base64_len(n: nat) -> nat {
    4 * (n / 3) + if n % 3 > 0 {
        4nat
    } else {
        0nat
    }
}

/// Whether the Base64 text of `n` bytes has a length that fits in `usize`
/// (the engine refuses to encode otherwise).
pub fn base64_len_fits(n: usize) -> (r: bool)
    ensures
        r == (padded_base64_len(n as nat) <= usize::MAX),
{
    let groups = n / 3;
    if groups > usize::MAX / 4 {
        return false;
    }
    let full = groups * 4;
    if n % 3 > 0 {
        full <= usize::MAX - 4
    } else {
        true
    }
}

/// The view of an optional string.
pub open spec fn opt_view(o: Option<String>) -> Option<Seq<char>> {
    match o {
        Some(s) => Some(s@),
        None => None,
    }
}

/// A path separator on some platform: `/` everywhere, `\` on Windows.
pub open spec fn is_separator(c: char) -> bool {
    c == '/' || c == '\\'
}

/// Whether `p` starts with two separators: the network, device and verbatim
/// prefixes of Windows paths start so, and in a verbatim path (`\\?\`) `/` is
/// no separator.
pub open spec fn starts_with_two_separators(p: Seq<char>) -> bool {
    p.len() >= 2 && is_separator(p[0]) && is_separator(p[1])
}

/// The text after the last separator (`/` or `\`) of `p`; all of `p` when
/// it has none.
pub open spec fn final_segment(p: Seq<char>) -> Seq<char>
    decreases p.len(),
{
    if p.len() == 0 {
        p
    } else if is_separator(p.last()) {
        seq![]
    } else {
        final_segment(p.drop_last()).push(p.last())
    }
}

/// Whether `Path::file_name` may find no final component in `p` on some
/// platform. Trailing separators and trailing `.` segments are passed over;
/// what is left is then empty, a root, a `..` segment, or a single segment of
/// the drive form `X:…`. Paths starting with two separators (network,
/// device and verbatim prefixes) are counted in as well.
pub open spec fn may_lack_file_name(p: Seq<char>) -> bool
    decreases p.len(),
{
    if starts_with_two_separators(p) || p.len() == 0 {
        true
    } else if is_separator(p.last()) {
        may_lack_file_name(p.drop_last())
    } else if final_segment(p) == seq!['.'] {
        may_lack_file_name(p.drop_last())
    } else {
        ||| final_segment(p) == seq!['.', '.']
        ||| (final_segment(p) == p && p.len() >= 2 && p[1] == ':')
    }
}

/// A file name that stays in the folder it is written to: not empty, not
/// `.` or `..`, and free of `/`.
pub open spec fn is_plain_file_name(n: Seq<char>) -> bool {
    &&& n.len() > 0
    &&& n != seq!['.']
    &&& n != seq!['.', '.']
    &&& forall|i: int| 0 <= i < n.len() ==> #[trigger] n[i] != '/'
}

/// The text after the last `/` of `p`; all of `p` when it has none.
pub open spec fn after_last_slash(p: Seq<char>) -> Seq<char> {
    match last_index(p, '/') {
        Some(k) => p.subrange(k + 1, p.len() as int),
        None => p,
    }
}

/// The text after the last `/` of `p` is a component on every platform with
/// that text as its name: not empty, `.` or `..`, free of `\`, and, when it
/// is the whole path, not of the drive form `X:…`.
pub open spec fn is_plain_last_component(p: Seq<char>, n: Seq<char>) -> bool {
    &&& n.len() > 0
    &&& n != seq!['.']
    &&& n != seq!['.', '.']
    &&& forall|i: int| 0 <= i < n.len() ==> n[i] != '\\'
    &&& n == p ==> !(n.len() >= 2 && n[1] == ':')
}

/// What `Path::file_name` returns on every platform, where its documentation
/// says so, for a path that does not start with two separators:
/// `Some(Some(n))` when the text `n` after its last `/` is a plain last
/// component; `Some(None)` for the empty path, `.`, `/`, and paths ending in
/// `..`; `None` (nothing stated) otherwise.
pub open spec fn documented_file_name(p: Seq<char>) -> Option<Option<Seq<char>>> {
    let n = after_last_slash(p);
    if starts_with_two_separators(p) {
        None
    } else if n == seq!['.', '.'] || p == seq!['/'] || p == seq!['.'] || p.len() == 0 {
        Some(None)
    } else if is_plain_last_component(p, n) {
        Some(Some(n))
    } else {
        None
    }
}

/// The label `display_name` gives `p` where the documentation fixes it: the
/// file name, or `p` itself when there is none.
pub open spec fn documented_display_name(p: Seq<char>) -> Option<Seq<char>> {
    match documented_file_name(p) {
        Some(Some(n)) => Some(n),
        Some(None) => Some(p),
        None => None,
    }
}

/// `label` is what `display_name` gives for `raw`: the documented label
/// where there is one; unless `raw` starts with two separators, `raw`
/// itself or a name free of `/`; and a plain file name wherever `raw` has a
/// final component on every platform.
pub open spec fn is_display_of(label: Seq<char>, raw: Seq<char>) -> bool {
    &&& documented_display_name(raw) is Some ==> label == documented_display_name(raw).unwrap()
    &&& !starts_with_two_separators(raw) ==> (label == raw || forall|i: int|
        0 <= i < label.len() ==> #[trigger] label[i] != '/')
    &&& !may_lack_file_name(raw) ==> is_plain_file_name(label)
}

/// A name without `/` or `\`, not of the drive form `X:…`, is its own label
/// on every platform, so a text encoded under it decodes to it again.
pub proof fn lemma_plain_name_is_own_label(name: Seq<char>)
    requires
        name.len() > 0,
        forall|i: int| 0 <= i < name.len() ==> name[i] != '/' && name[i] != '\\',
        !(name.len() >= 2 && name[1] == ':'),
    ensures
        documented_display_name(name) == Some(name),
        forall|l: Seq<char>| is_display_of(l, name) ==> l == name,
{
    lemma_last_index_facts(name, '/');
    assert(after_last_slash(name) == name);
}

/// `Md5::digest` (md-5): the digest of `data`, 16 bytes long (MD5's output
/// size is 128 bits).
#[verifier::external_body]
fn md5_digest_of(data: &[u8]) -> (digest: Vec<u8>)
    ensures
        digest@ == md5_digest(data@),
        digest@.len() == 16,
{
    Md5::digest(data).to_vec()
}

/// `hex::encode`: lowercase hexadecimal, two digits per byte, in order.
#[verifier::external_body]
fn hex_encode(data: &[u8]) -> (text: String)
    ensures
        text@ == hex_lower(data@),
{
    hex::encode(data)
}

/// `STANDARD.encode` (base64): RFC 4648 Base64 with the standard alphabet
/// and padding, and the same engine decodes its bytes back to `data`. It
/// panics exactly when the text's length (`encoded_len`) overflows `usize`.
#[verifier::external_body]
pub(crate) fn base64_encode(data: &[u8]) -> (text: String)
    requires
        padded_base64_len(data@.len()) <= usize::MAX,
    ensures
        text@ == base64_text(data@),
        base64_decoded(text@) is Ok,
        base64_decoded(text@).unwrap() == data@,
{
    STANDARD.encode(data)
}

/// `STANDARD.decode` (base64) of the UTF-8 bytes of `input`: the decoded
/// bytes, or the engine's error carried over variant for variant. The engine
/// checks every byte against its decode table and the padding byte, so it
/// accepts only inputs made of Base64 symbols (a character outside ASCII
/// encodes to bytes that are in neither).
#[verifier::external_body]
pub(crate) fn base64_decode(input: &str) -> (r: Result<Vec<u8>, Base64Failure>)
    ensures
        match base64_decoded(input@) {
            Ok(d) => r matches Ok(v) && v@ == d,
            Err(f) => r == Err::<Vec<u8>, Base64Failure>(f),
        },
        r is Ok ==> is_base64_text(input@),
{
    match STANDARD.decode(input.as_bytes()) {
        Ok(v) => Ok(v),
        Err(DecodeError::InvalidByte(index, byte)) => Err(Base64Failure::InvalidByte(index, byte)),
        Err(DecodeError::InvalidLength(len)) => Err(Base64Failure::InvalidLength(len)),
        Err(DecodeError::InvalidLastSymbol(index, byte)) => Err(
            Base64Failure::InvalidLastSymbol(index, byte),
        ),
        Err(DecodeError::InvalidPadding) => Err(Base64Failure::InvalidPadding),
    }
}

/// `Path::file_name` (std), as a `String`: the final component of `path`,
/// which is a `Normal` component and so never empty, `.` or `..`. Where the
/// documentation fixes the result on every platform (`documented_file_name`)
/// it is that. Unless the path starts with two separators (where a Windows
/// verbatim prefix may make `/` an ordinary character), any name it gives is
/// free of `/`. There is no name only where the components, once trailing
/// separators and `.` are passed over, end in a root, a prefix, `..`, or
/// nothing (`may_lack_file_name`). Which name a platform gives otherwise
/// depends on its separators and is not stated.
#[verifier::external_body]
pub(crate) fn path_file_name(path: &str) -> (name: Option<String>)
    ensures
        documented_file_name(path@) is Some ==> opt_view(name) == documented_file_name(
            path@,
        ).unwrap(),
        !starts_with_two_separators(path@) && name is Some ==> forall|i: int|
            0 <= i < name.unwrap()@.len() ==> #[trigger] name.unwrap()@[i] != '/',
        name matches Some(n) ==> (n@.len() > 0 && n@ != seq!['.'] && n@ != seq!['.', '.']),
        name is None ==> may_lack_file_name(path@),
{
    Path::new(path).file_name().map(|n| n.to_string_lossy().into_owned())
}

/// Lowercase hexadecimal MD5 digest of `data` (32 characters).
pub fn md5_hex(data: &[u8]) -> (text: String)
    ensures
        text@ == hex_lower(md5_digest(data@)),
        text@.len() == 32,
{
    let digest = md5_digest_of(data);
    hex_encode(digest.as_slice())
}


/// The final component of `path`, or `path` itself where it has none (as a
/// label for the path).
pub fn display_name(path: &str) -> (name: String)
    ensures
        is_display_of(name@, path@),
{
    match path_file_name(path) {
        Some(n) => n,
        None => path.to_owned(),
    }
}

} // verus!
