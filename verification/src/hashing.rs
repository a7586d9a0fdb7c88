//! Content addressing.
//!
//! Every copy of a resource is identified by the lower-case hexadecimal
//! SHA-256 digest of its bytes; a directory resource gets a composite
//! digest over its sorted member blob hashes.  The digest itself comes from
//! an outside implementation and is only named here; the hexadecimal
//! rendering and the composite construction are the library's own.

use vstd::prelude::*;
use vstd::utf8::encode_utf8;

use sha2::Digest;

use crate::strutil::{char_from_u32, push_char};

verus! {

/// The SHA-256 digest of a byte sequence.
pub uninterp spec fn sha256_of(bytes: Seq<u8>) -> Seq<u8>;

/// Relies on `sha2::Sha256` through `Digest::digest`: the digest depends on
/// the input bytes alone, and SHA-256 produces exactly 32 bytes.
#[verifier::external_body]
fn sha256(data: &[u8]) -> (r: Vec<u8>)
    ensures
        r@ == sha256_of(data@),
        r@.len() == 32,
{
    sha2::Sha256::digest(data).as_slice().to_vec()
}

/// The lower-case hexadecimal digit of a value below 16.
pub open spec fn hex_digit(n: u8) -> char {
    if n < 10 {
        (('0' as u32) + (n as u32)) as char
    } else {
        (('a' as u32) + (n as u32) - 10) as char
    }
}

/// The lower-case hexadecimal rendering of a byte sequence, two digits per
/// byte, high nibble first.
pub open spec fn spec_hex(bytes: Seq<u8>) -> Seq<char> {
    Seq::new(
        bytes.len() * 2,
        |i: int|
            if i % 2 == 0 {
                hex_digit(bytes[i / 2] / 16)
            } else {
                hex_digit(bytes[i / 2] % 16)
            },
    )
}

/// The content hash of a text: the hexadecimal SHA-256 digest of its UTF-8
/// bytes.
pub open spec fn spec_content_hash(s: Seq<char>) -> Seq<char> {
    spec_hex(sha256_of(encode_utf8(s)))
}

/// Render one digit value below 16 as a character.
pub fn hex_digit_char(n: u8) -> (r: char)
    requires
        n < 16,
    ensures
        r == hex_digit(n),
{
    let code: u32 = if n < 10 {
        ('0' as u32) + (n as u32)
    } else {
        ('a' as u32) + (n as u32) - 10
    };
    match char_from_u32(code) {
        Some(c) => {
            proof {
                vstd::utf8::char_u32_cast(c, c as u32);
            }
            c
        },
        None => {
            proof {
                assert(false);
            }
            ' '
        },
    }
}

/// Render a byte sequence in lower-case hexadecimal.
pub fn to_hex(bytes: &Vec<u8>) -> (r: String)
    ensures
        r@ == spec_hex(bytes@),
{
    let mut out = String::new();
    let n = bytes.len();
    let mut i: usize = 0;
    while i < n
        invariant
            i <= n,
            n == bytes@.len(),
            out@ =~= spec_hex(bytes@.subrange(0, i as int)),
        decreases n - i,
    {
        let b = bytes[i];
        let hi = hex_digit_char(b / 16);
        let lo = hex_digit_char(b % 16);
        push_char(&mut out, hi);
        push_char(&mut out, lo);
        proof {
            let pre = bytes@.subrange(0, i as int);
            let cur = bytes@.subrange(0, i + 1);
            assert forall|k: int| 0 <= k < cur.len() * 2 implies spec_hex(cur)[k] == out@[k] by {
                if k < pre.len() * 2 {
                    assert(spec_hex(pre)[k] == out@[k]);
                    assert(cur[k / 2] == pre[k / 2]);
                }
            }
            assert(out@ =~= spec_hex(cur));
        }
        i += 1;
    }
    assert(bytes@.subrange(0, n as int) =~= bytes@);
    out
}

/// The content hash of a text: always 64 hexadecimal characters.
pub fn compute_hash(content: &str) -> (r: String)
    ensures
        r@ == spec_content_hash(content@),
        r@.len() == 64,
{
    let bytes = content.as_bytes_vec();
    let digest = sha256(bytes.as_slice());
    to_hex(&digest)
}

} // verus!
