//! SHA-256 digests and their short hexadecimal form.

use crate::json;
use sha2::{Digest, Sha256};
use vstd::prelude::*;

verus! {

/// The SHA-256 digest of `data`.
pub uninterp spec fn sha256(data: Seq<u8>) -> Seq<u8>;

/// Calls `sha2::Sha256::digest`: the result is the SHA-256 digest of `data`,
/// a function of the bytes alone.
#[verifier::external_body]
pub(crate) fn sha256_digest(data: &[u8]) -> (r: [u8; 32])
    ensures
        r@ == sha256(data@),
{
    Sha256::digest(data).into()
}

/// Two lower-case hexadecimal digits for each byte.
pub open spec fn hex_text(bytes: Seq<u8>) -> Seq<char>
    decreases bytes.len(),
{
    if bytes.len() == 0 {
        Seq::empty()
    } else {
        hex_text(bytes.drop_last()) + seq![
            json::hex_digit(bytes.last() as int / 16),
            json::hex_digit(bytes.last() as int % 16),
        ]
    }
}

/// The hexadecimal form of the first eight bytes, or of all where there are fewer.
pub open spec fn short_hex(bytes: Seq<u8>) -> Seq<char> {
    hex_text(
        bytes.take(
            if bytes.len() < 8 {
                bytes.len() as int
            } else {
                8
            },
        ),
    )
}

/// The hexadecimal digit for `n`.
fn digit(n: u8) -> (c: char)
    requires
        n < 16,
    ensures
        c == json::hex_digit(n as int),
{
    if n < 10 {
        (48 + n) as char
    } else {
        (87 + n) as char
    }
}

/// The hexadecimal form of the first eight bytes.
pub fn hex_short(bytes: &[u8]) -> (r: String)
    ensures
        r@ == short_hex(bytes@),
{
    let n: usize = if bytes.len() < 8 {
        bytes.len()
    } else {
        8
    };
    let mut r = String::new();
    let mut i: usize = 0;
    while i < n
        invariant
            i <= n <= bytes.len(),
            r@ == hex_text(bytes@.take(i as int)),
        decreases n - i,
    {
        let b: u8 = bytes[i];
        r.push(digit(b / 16));
        r.push(digit(b % 16));
        assert(bytes@.take(i + 1).drop_last() =~= bytes@.take(i as int));
        assert(r@ =~= hex_text(bytes@.take(i + 1)));
        i += 1;
    }
    r
}

/// The short form of a digest is sixteen lower-case hexadecimal digits, two for
/// each of its first eight bytes, the higher half of a byte first.
pub proof fn short_form_spells_the_bytes(bytes: Seq<u8>, i: int)
    requires
        bytes.len() >= 8,
        0 <= i < 8,
    ensures
        short_hex(bytes).len() == 16,
        short_hex(bytes)[2 * i] == "0123456789abcdef"@[bytes[i] as int / 16],
        short_hex(bytes)[2 * i + 1] == "0123456789abcdef"@[bytes[i] as int % 16],
{
    reveal_strlit("0123456789abcdef");
    hex_index(bytes.take(8), i);
}

proof fn hex_index(bytes: Seq<u8>, i: int)
    requires
        0 <= i < bytes.len(),
    ensures
        hex_text(bytes).len() == 2 * bytes.len(),
        hex_text(bytes)[2 * i] == json::hex_digit(bytes[i] as int / 16),
        hex_text(bytes)[2 * i + 1] == json::hex_digit(bytes[i] as int % 16),
    decreases bytes.len(),
{
    let front = bytes.drop_last();
    if front.len() == 0 {
        assert(hex_text(front).len() == 0);
    } else if i < front.len() {
        hex_index(front, i);
        assert(front[i] == bytes[i]);
    } else {
        hex_index(front, 0);
    }
}

} // verus!
