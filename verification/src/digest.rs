//! SHA-256 digests and their hexadecimal notation.
use sha2::{Digest, Sha256};
use vstd::prelude::*;
use vstd::string::*;

verus! {

/// What the `sha2` crate computes as the SHA-256 digest of `bytes`.
pub uninterp spec fn sha256_digest(bytes: Seq<u8>) -> [u8; 32];

/// The SHA-256 digest of `bytes`, as bytes.
pub open spec fn sha256(bytes: Seq<u8>) -> Seq<u8> {
    sha256_digest(bytes)@
}

/// Calls `Sha256::digest` of the `sha2` crate; the contract names its result.
#[verifier::external_body]
pub(crate) fn sha256_bytes(bytes: &[u8]) -> (digest: [u8; 32])
    ensures
        digest == sha256_digest(bytes@),
{
    Sha256::digest(bytes).into()
}

/// The hexadecimal digit of a value below 16, in lower case.
pub open spec fn hex_digit(n: u8) -> char {
    if n < 10 {
        (48 + n) as char
    } else {
        (87 + n) as char
    }
}

/// Two hexadecimal digits for each byte, the high half first.
pub open spec fn hex(bytes: Seq<u8>) -> Seq<char> {
    Seq::new(
        2 * bytes.len(),
        |i: int|
            if i % 2 == 0 {
                hex_digit(bytes[i / 2] / 16)
            } else {
                hex_digit(bytes[i / 2] % 16)
            },
    )
}

/// A digit or a letter from `a` to `f`.
pub open spec fn is_hex(c: char) -> bool {
    '0' <= c <= '9' || 'a' <= c <= 'f'
}

fn digit_char(n: u8) -> (c: char)
    requires
        n < 16,
    ensures
        c == hex_digit(n),
{
    if n < 10 {
        (48 + n) as char
    } else {
        (87 + n) as char
    }
}

/// Writes bytes in hexadecimal.
pub fn to_hex(bytes: &[u8]) -> (s: String)
    ensures
        s@ == hex(bytes@),
{
    let mut s = String::new();
    let mut i: usize = 0;
    while i < bytes.len()
        invariant
            i <= bytes@.len(),
            s@ == hex(bytes@.take(i as int)),
        decreases bytes@.len() - i,
    {
        let b: u8 = bytes[i];
        s.push(digit_char(b / 16));
        s.push(digit_char(b % 16));
        proof {
            assert(s@ =~= hex(bytes@.take(i + 1)));
        }
        i += 1;
    }
    assert(bytes@.take(i as int) =~= bytes@);
    s
}

/// The SHA-256 digest of `bytes` in hexadecimal.
pub fn hash_bytes(bytes: &[u8]) -> (s: String)
    ensures
        s@ == hex(sha256(bytes@)),
        s@.len() == 64,
{
    let digest = sha256_bytes(bytes);
    to_hex(&digest)
}

/// The notation has two lower-case digits for each byte, and different bytes have
/// different notations.
pub proof fn law_hex(a: Seq<u8>, b: Seq<u8>)
    ensures
        hex(a).len() == 2 * a.len(),
        forall|i: int| 0 <= i < hex(a).len() ==> is_hex(#[trigger] hex(a)[i]),
        hex(a) == hex(b) ==> a == b,
{
    if hex(a) == hex(b) {
        assert(a.len() == b.len()) by {
            assert(hex(a).len() == hex(b).len());
        }
        assert forall|i: int| 0 <= i < a.len() implies a[i] == b[i] by {
            assert(hex(a)[2 * i] == hex(b)[2 * i]);
            assert(hex(a)[2 * i + 1] == hex(b)[2 * i + 1]);
            assert((2 * i) / 2 == i && (2 * i + 1) / 2 == i);
            assert(hex_digit(a[i] / 16) == hex_digit(b[i] / 16));
            assert(hex_digit(a[i] % 16) == hex_digit(b[i] % 16));
            assert(a[i] / 16 == b[i] / 16);
            assert(a[i] % 16 == b[i] % 16);
        }
        assert(a =~= b);
    }
}

/// Two digits give the byte they stand for: the first the high half, the second the low one.
pub proof fn law_hex_gives_the_bytes(bytes: Seq<u8>, i: int)
    requires
        0 <= i < bytes.len(),
    ensures
        16 * half_of(hex(bytes)[2 * i]) + half_of(hex(bytes)[2 * i + 1]) == bytes[i],
{
    assert((2 * i) / 2 == i && (2 * i + 1) / 2 == i);
    assert((2 * i) % 2 == 0 && (2 * i + 1) % 2 == 1);
}

/// The value of a hexadecimal digit.
pub open spec fn half_of(c: char) -> int {
    if '0' <= c <= '9' {
        c as int - '0' as int
    } else {
        c as int - 'a' as int + 10
    }
}

} // verus!
