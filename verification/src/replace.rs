//! What stands in for a detected span under each privacy policy.

use crate::kinds::{PiiField, PrivacyPolicy};
use sha2::{Digest, Sha256};
use vstd::prelude::*;
use vstd::string::*;
use vstd::utf8::*;

verus! {

/// The character that a redaction is made of: the full block.
pub open spec fn filler() -> char {
    '\u{2588}'
}

/// A redaction of `width` bytes: the filler, once for each byte.
pub open spec fn redaction(width: nat) -> Seq<char> {
    Seq::new(width, |i: int| filler())
}

/// The decimal digit of `d`, for `d` below ten.
pub open spec fn digit_char(d: nat) -> char {
    (48 + d) as char
}

/// `n` in decimal notation, without leading zeros.
pub open spec fn decimal(n: nat) -> Seq<char>
    decreases n,
{
    if n < 10 {
        seq![digit_char(n)]
    } else {
        decimal(n / 10).push(digit_char(n % 10))
    }
}

/// The placeholder of the `nth` span of a kind: `<KIND_n>`.
pub open spec fn placeholder(kind: PiiField, nth: nat) -> Seq<char> {
    seq!['<'] + kind.label() + seq!['_'] + decimal(nth) + seq!['>']
}

/// The lower-case hex digit of `nibble`, for `nibble` below sixteen.
pub open spec fn hex_digit(nibble: nat) -> char {
    if nibble < 10 {
        (48 + nibble) as char
    } else {
        (87 + nibble) as char
    }
}

/// Whether `c` is a lower-case hex digit.
pub open spec fn is_hex_digit(c: char) -> bool {
    ('0' <= c && c <= '9') || ('a' <= c && c <= 'f')
}

/// Whether `tag` is made of eight lower-case hex digits.
pub open spec fn is_hash_tag(tag: Seq<char>) -> bool {
    &&& tag.len() == 8
    &&& forall|i: int| 0 <= i < 8 ==> is_hex_digit(#[trigger] tag[i])
}

/// `data` in lower-case hex: two digits for each byte, the high one first.
pub open spec fn hex_lower(data: Seq<u8>) -> Seq<char> {
    Seq::new(
        2 * data.len(),
        |i: int|
            if i % 2 == 0 {
                hex_digit((data[i / 2] / 16) as nat)
            } else {
                hex_digit((data[i / 2] % 16) as nat)
            },
    )
}

/// The SHA-256 digest of `data`.
pub uninterp spec fn sha256(data: Seq<u8>) -> Seq<u8>;

/// The tag that stands for `original` under the hash policy: the first eight
/// hex digits of the SHA-256 digest of its UTF-8 encoding.
pub open spec fn hash_tag(original: Seq<char>) -> Seq<char> {
    hex_lower(sha256(encode_utf8(original))).subrange(0, 8)
}

/// What replaces a span of `width` bytes that holds `original`, where the
/// span is the `nth` of its kind so far.
pub open spec fn replacement_for(
    policy: PrivacyPolicy,
    kind: PiiField,
    original: Seq<char>,
    width: nat,
    nth: nat,
) -> Seq<char> {
    match policy {
        PrivacyPolicy::Redact => redaction(width),
        PrivacyPolicy::Anonymize => placeholder(kind, nth),
        PrivacyPolicy::Hash => hash_tag(original),
    }
}

/// Calls `Sha256::digest` of the crate sha2, which hashes `data` in one go and
/// gives the digest as an array of 32 bytes. The contract names the digest and
/// states its length.
#[verifier::external_body]
fn sha256_of(data: &[u8]) -> (digest: Vec<u8>)
    ensures
        digest@ == sha256(data@),
        digest@.len() == 32,
{
    Sha256::digest(data).to_vec()
}

/// Calls `hex::encode`, which writes each byte as two lower-case hex digits,
/// the high half first.
#[verifier::external_body]
fn hex_encode(data: &[u8]) -> (out: String)
    ensures
        out@ == hex_lower(data@),
{
    hex::encode(data)
}

/// A number of ten or more takes two digits or more, a smaller one takes one.
pub proof fn lemma_decimal_len(n: nat)
    ensures
        decimal(n).len() >= 1,
        n >= 10 ==> decimal(n).len() >= 2,
        n < 10 ==> decimal(n).len() == 1,
    decreases n,
{
    if n >= 10 {
        lemma_decimal_len(n / 10);
    }
}

/// Different numbers are written differently.
pub proof fn lemma_decimal_injective(a: nat, b: nat)
    requires
        decimal(a) == decimal(b),
    ensures
        a == b,
    decreases a,
{
    lemma_decimal_len(a);
    lemma_decimal_len(b);
    if a < 10 {
        assert(decimal(a)[0] == digit_char(a));
        assert(decimal(b)[0] == digit_char(b));
    } else {
        let (ha, hb) = (decimal(a / 10), decimal(b / 10));
        assert(decimal(a).drop_last() =~= ha);
        assert(decimal(b).drop_last() =~= hb);
        assert(decimal(a).last() == digit_char(a % 10));
        assert(decimal(b).last() == digit_char(b % 10));
        lemma_decimal_injective(a / 10, b / 10);
    }
}

/// Different numbers give a kind different placeholders.
pub proof fn lemma_placeholder_injective(kind: PiiField, a: nat, b: nat)
    requires
        placeholder(kind, a) == placeholder(kind, b),
    ensures
        a == b,
{
    let head = seq!['<'] + kind.label() + seq!['_'];
    let (pa, pb) = (placeholder(kind, a), placeholder(kind, b));
    assert(pa.subrange(head.len() as int, pa.len() - 1) =~= decimal(a));
    assert(pb.subrange(head.len() as int, pb.len() - 1) =~= decimal(b));
    lemma_decimal_injective(a, b);
}

/// Every character of a hex string is a lower-case hex digit.
pub proof fn lemma_hex_lower_digits(data: Seq<u8>)
    ensures
        hex_lower(data).len() == 2 * data.len(),
        forall|i: int|
            0 <= i < hex_lower(data).len() ==> is_hex_digit(#[trigger] hex_lower(data)[i]),
        is_ascii_chars(hex_lower(data)),
{
    assert forall|i: int| 0 <= i < hex_lower(data).len() implies is_hex_digit(
        #[trigger] hex_lower(data)[i],
    ) by {
        let b = data[i / 2];
        assert(0 <= b / 16 < 16);
        assert(0 <= b % 16 < 16);
    }
    assert forall|i: int| 0 <= i < hex_lower(data).len() implies '\0' <= #[trigger] hex_lower(
        data,
    )[i] <= '\u{7f}' by {
        assert(is_hex_digit(hex_lower(data)[i]));
    }
}

/// The filler, `width` times.
pub fn redact(width: usize) -> (out: String)
    ensures
        out@ == redaction(width as nat),
{
    let mut out = String::new();
    let mut done: usize = 0;
    while done < width
        invariant
            done <= width,
            out@ == redaction(done as nat),
        decreases width - done,
    {
        proof {
            reveal_strlit("\u{2588}");
        }
        out.append("\u{2588}");
        done = done + 1;
        assert(out@ =~= redaction(done as nat));
    }
    assert(out@ =~= redaction(width as nat));
    out
}

fn digit_str(d: usize) -> (s: &'static str)
    requires
        d < 10,
    ensures
        s@ == seq![digit_char(d as nat)],
{
    proof {
        reveal_strlit("0");
        reveal_strlit("1");
        reveal_strlit("2");
        reveal_strlit("3");
        reveal_strlit("4");
        reveal_strlit("5");
        reveal_strlit("6");
        reveal_strlit("7");
        reveal_strlit("8");
        reveal_strlit("9");
    }
    let s = match d {
        0 => "0",
        1 => "1",
        2 => "2",
        3 => "3",
        4 => "4",
        5 => "5",
        6 => "6",
        7 => "7",
        8 => "8",
        _ => "9",
    };
    assert(s@ =~= seq![digit_char(d as nat)]);
    s
}

/// `n` written in decimal.
pub fn decimal_string(n: usize) -> (out: String)
    ensures
        out@ == decimal(n as nat),
    decreases n,
{
    if n < 10 {
        String::from_str(digit_str(n))
    } else {
        let mut out = decimal_string(n / 10);
        out.append(digit_str(n % 10));
        assert(out@ =~= decimal(n as nat));
        out
    }
}

/// The placeholder `<KIND_n>` of the `nth` span of `kind`.
pub fn anonymize(kind: PiiField, nth: usize) -> (out: String)
    ensures
        out@ == placeholder(kind, nth as nat),
{
    proof {
        reveal_strlit("<");
        reveal_strlit("_");
        reveal_strlit(">");
    }
    let mut out = String::from_str("<");
    out.append(kind.as_str());
    out.append("_");
    let number = decimal_string(nth);
    out.append(number.as_str());
    out.append(">");
    assert(out@ =~= placeholder(kind, nth as nat));
    out
}

/// The first eight hex digits of a digest of four bytes or more.
pub fn digest_tag(digest: &[u8]) -> (out: String)
    requires
        digest@.len() >= 4,
    ensures
        out@ == hex_lower(digest@).subrange(0, 8),
        is_hash_tag(out@),
{
    let hex = hex_encode(digest);
    proof {
        lemma_hex_lower_digits(digest@);
    }
    let tag = hex.as_str().substring_ascii(0, 8);
    String::from_str(tag)
}

/// The tag of `original` under the hash policy.
pub fn hash(original: &str) -> (out: String)
    ensures
        out@ == hash_tag(original@),
        is_hash_tag(out@),
{
    let digest = sha256_of(original.as_bytes());
    digest_tag(digest.as_slice())
}

/// What `policy` puts in the place of a span of `width` bytes that holds
/// `original` and is the `nth` of its kind.
pub fn replacement(
    policy: PrivacyPolicy,
    kind: PiiField,
    original: &str,
    width: usize,
    nth: usize,
) -> (out: String)
    ensures
        out@ == replacement_for(policy, kind, original@, width as nat, nth as nat),
        policy is Hash ==> is_hash_tag(out@),
{
    match policy {
        PrivacyPolicy::Redact => redact(width),
        PrivacyPolicy::Anonymize => anonymize(kind, nth),
        PrivacyPolicy::Hash => hash(original),
    }
}

} // verus!
