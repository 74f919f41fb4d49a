//! SHA-256 content digests and their lower-case hexadecimal rendering.

use vstd::prelude::*;
use sha2::Digest;

verus! {

/// The SHA-256 digest of `data`, as `sha2::Sha256` computes it.
pub uninterp spec fn sha256_of(data: Seq<u8>) -> Seq<u8>;

/// Calls `sha2::Sha256::digest`; the contract claims that the 32 bytes it
/// returns are the SHA-256 digest of `data`, a function of `data` alone.
#[verifier::external_body]
pub(crate) fn sha256(data: &[u8]) -> (out: Vec<u8>)
    ensures
        out@ == sha256_of(data@),
        out@.len() == 32,
{
    sha2::Sha256::digest(data).to_vec()
}

/// The lower-case hexadecimal digit for a value below 16.
pub open spec fn hex_char(n: u8) -> char {
    if n < 10 {
        ((n + 48) as u8) as char
    } else {
        ((n + 87) as u8) as char
    }
}

/// Two lower-case hexadecimal digits per byte, most significant nibble first.
pub open spec fn hex_lower(bytes: Seq<u8>) -> Seq<char>
    decreases bytes.len(),
{
    if bytes.len() == 0 {
        Seq::empty()
    } else {
        hex_lower(bytes.drop_last()) + seq![hex_char(bytes.last() / 16), hex_char(bytes.last() % 16)]
    }
}

/// Whether `c` is an ASCII hexadecimal digit of either case.
pub open spec fn is_hex_char(c: char) -> bool {
    ('0' <= c && c <= '9') || ('a' <= c && c <= 'f') || ('A' <= c && c <= 'F')
}

/// A digest string: exactly 64 ASCII hexadecimal digits.
pub open spec fn is_digest_chars(s: Seq<char>) -> bool {
    s.len() == 64 && forall|i: int| 0 <= i < s.len() ==> is_hex_char(#[trigger] s[i])
}

fn hex_digit(n: u8) -> (s: &'static str)
    requires
        n < 16,
    ensures
        s@ == seq![hex_char(n)],
{
    proof {
        reveal_strlit("0");
        reveal_strlit("1");
        reveal_strlit("2");
        reveal_strlit("3");
        reveal_strlit("4");
        reveal_strlit("5");
        reveal_strlit("6");
        reveal_strlit("7");
        reveal_strlit("8");
        reveal_strlit("9");
        reveal_strlit("a");
        reveal_strlit("b");
        reveal_strlit("c");
        reveal_strlit("d");
        reveal_strlit("e");
        reveal_strlit("f");
    }
    match n {
        0 => "0",
        1 => "1",
        2 => "2",
        3 => "3",
        4 => "4",
        5 => "5",
        6 => "6",
        7 => "7",
        8 => "8",
        9 => "9",
        10 => "a",
        11 => "b",
        12 => "c",
        13 => "d",
        14 => "e",
        _ => "f",
    }
}

/// Renders `bytes` as lower-case hexadecimal.
pub fn hex_bytes(bytes: &[u8]) -> (out: String)
    ensures
        out@ == hex_lower(bytes@),
{
    let mut out = String::new();
    let mut i: usize = 0;
    while i < bytes.len()
        invariant
            i <= bytes.len(),
            out@ == hex_lower(bytes@.subrange(0, i as int)),
        decreases bytes.len() - i,
    {
        let b = bytes[i];
        out.append(hex_digit(b / 16));
        out.append(hex_digit(b % 16));
        proof {
            let s = bytes@.subrange(0, i + 1);
            assert(s.drop_last() =~= bytes@.subrange(0, i as int));
        }
        i = i + 1;
    }
    proof {
        assert(bytes@.subrange(0, bytes@.len() as int) =~= bytes@);
    }
    out
}

/// The lower-case hexadecimal SHA-256 digest of `bytes`, as stored in artifact
/// checksums.
pub open spec fn digest_spec(bytes: Seq<u8>) -> Seq<char> {
    hex_lower(sha256_of(bytes))
}

/// Hexadecimal rendering doubles the length and yields only hexadecimal
/// digits.
pub proof fn lemma_hex_lower_shape(bytes: Seq<u8>)
    ensures
        hex_lower(bytes).len() == 2 * bytes.len(),
        forall|i: int| 0 <= i < hex_lower(bytes).len() ==> is_hex_char(#[trigger] hex_lower(bytes)[i]),
    decreases bytes.len(),
{
    if bytes.len() > 0 {
        lemma_hex_lower_shape(bytes.drop_last());
        let last = bytes.last();
        assert(last / 16 < 16 && last % 16 < 16);
        assert(is_hex_char(hex_char(last / 16)));
        assert(is_hex_char(hex_char(last % 16)));
        let h = hex_lower(bytes);
        let p = hex_lower(bytes.drop_last());
        assert forall|i: int| 0 <= i < h.len() implies is_hex_char(#[trigger] h[i]) by {
            if i < p.len() {
                assert(h[i] == p[i]);
            }
        }
    }
}

/// The bare lower-case hexadecimal SHA-256 digest of `bytes` (64 characters).
pub fn digest_hex(bytes: &[u8]) -> (out: String)
    ensures
        out@ == digest_spec(bytes@),
        is_digest_chars(out@),
{
    let raw = sha256(bytes);
    proof { lemma_hex_lower_shape(raw@); }
    hex_bytes(raw.as_slice())
}

/// The `sha256:`-prefixed digest string of `bytes`.
pub open spec fn labelled_digest(bytes: Seq<u8>) -> Seq<char> {
    "sha256:"@ + digest_spec(bytes)
}

/// `sha256:` followed by the lower-case hexadecimal SHA-256 digest.
pub fn sha256_label(bytes: &[u8]) -> (out: String)
    ensures
        out@ == labelled_digest(bytes@),
{
    let mut s = String::from_str("sha256:");
    let hex = digest_hex(bytes);
    s.append(hex.as_str());
    s
}

} // verus!
