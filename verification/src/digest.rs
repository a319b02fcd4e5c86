//! The checksum engine: strong and weak content digests, hex encoding, and
//! integrity verification. The digests themselves come from outside hash
//! functions; everything stated of them is that they depend on the content
//! bytes alone.

use vstd::prelude::*;
use sha2::Digest;

use crate::types::{Checksums, StorageError};

verus! {

/// What the strong (256-bit) digest of a byte sequence is: fixed by the
/// outside hash function, a function of the bytes alone.
pub uninterp spec fn sha256_of(data: Seq<u8>) -> Seq<u8>;

/// What the weak legacy (128-bit) digest of a byte sequence is: fixed by the
/// outside hash function, a function of the bytes alone.
pub uninterp spec fn md5_of(data: Seq<u8>) -> Seq<u8>;

/// Relies on sha2::Sha256::digest: a 32-byte digest that depends on the
/// input bytes alone.
#[verifier::external_body]
fn sha256_bytes(data: &[u8]) -> (r: Vec<u8>)
    ensures
        r@ == sha256_of(data@),
        r@.len() == 32,
{
    sha2::Sha256::digest(data).to_vec()
}

/// Relies on md5::compute: a 16-byte digest that depends on the input bytes
/// alone.
#[verifier::external_body]
fn md5_bytes(data: &[u8]) -> (r: Vec<u8>)
    ensures
        r@ == md5_of(data@),
        r@.len() == 16,
{
    md5::compute(data).0.to_vec()
}

/// The lower-case hex character for a value below 16.
pub open spec fn hex_digit(n: int) -> char {
    if n == 0 {
        '0'
    } else if n == 1 {
        '1'
    } else if n == 2 {
        '2'
    } else if n == 3 {
        '3'
    } else if n == 4 {
        '4'
    } else if n == 5 {
        '5'
    } else if n == 6 {
        '6'
    } else if n == 7 {
        '7'
    } else if n == 8 {
        '8'
    } else if n == 9 {
        '9'
    } else if n == 10 {
        'a'
    } else if n == 11 {
        'b'
    } else if n == 12 {
        'c'
    } else if n == 13 {
        'd'
    } else if n == 14 {
        'e'
    } else {
        'f'
    }
}

/// The lower-case hex encoding of a byte sequence: two characters per byte,
/// high nibble first.
pub open spec fn hex_of(bytes: Seq<u8>) -> Seq<char> {
    Seq::new(
        2 * bytes.len(),
        |i: int|
            if i % 2 == 0 {
                hex_digit(bytes[i / 2] as int / 16)
            } else {
                hex_digit(bytes[i / 2] as int % 16)
            },
    )
}

fn hex_str(n: u8) -> (r: &'static str)
    requires
        n < 16,
    ensures
        r@ =~= seq![hex_digit(n as int)],
{
    proof {
        reveal_strlit("0");
        reveal_strlit("1");
        reveal_strlit("2");
        reveal_strlit("3");
        reveal_strlit("4");
        reveal_strlit("5");
        reveal_strlit("6");
        reveal_strlit("7");
        reveal_strlit("8");
        reveal_strlit("9");
        reveal_strlit("a");
        reveal_strlit("b");
        reveal_strlit("c");
        reveal_strlit("d");
        reveal_strlit("e");
        reveal_strlit("f");
    }
    if n == 0 {
        "0"
    } else if n == 1 {
        "1"
    } else if n == 2 {
        "2"
    } else if n == 3 {
        "3"
    } else if n == 4 {
        "4"
    } else if n == 5 {
        "5"
    } else if n == 6 {
        "6"
    } else if n == 7 {
        "7"
    } else if n == 8 {
        "8"
    } else if n == 9 {
        "9"
    } else if n == 10 {
        "a"
    } else if n == 11 {
        "b"
    } else if n == 12 {
        "c"
    } else if n == 13 {
        "d"
    } else if n == 14 {
        "e"
    } else {
        "f"
    }
}

/// Hex-encode a byte sequence, lower case, two characters per byte.
pub fn to_hex(bytes: &[u8]) -> (r: String)
    ensures
        r@ == hex_of(bytes@),
{
    let n: usize = bytes.len();
    let mut s = String::new();
    let mut i: usize = 0;
    while i < n
        invariant
            i <= n,
            n == bytes@.len(),
            s@.len() == 2 * i,
            forall|j: int| 0 <= j < 2 * i ==> s@[j] == hex_of(bytes@)[j],
        decreases n - i,
    {
        let b = bytes[i];
        s.append(hex_str(b / 16));
        s.append(hex_str(b % 16));
        i = i + 1;
    }
    proof {
        assert(s@ =~= hex_of(bytes@));
    }
    s
}

/// The hex-encoded weak digest of a byte sequence.
pub open spec fn md5_hex_of(data: Seq<u8>) -> Seq<char> {
    hex_of(md5_of(data))
}

/// The hex-encoded strong digest of a byte sequence.
pub open spec fn sha256_hex_of(data: Seq<u8>) -> Seq<char> {
    hex_of(sha256_of(data))
}

/// Compute both content digests of `data`. Deterministic: the result is a
/// function of the exact byte content alone.
pub fn digest(data: &[u8]) -> (c: Checksums)
    ensures
        c.md5@ == md5_hex_of(data@),
        c.sha256@ == sha256_hex_of(data@),
{
    let m = md5_bytes(data);
    let s = sha256_bytes(data);
    Checksums { md5: to_hex(m.as_slice()), sha256: to_hex(s.as_slice()) }
}

/// Recompute the digests of `data` and compare them with `expected`.
/// Succeeds exactly when both match; on divergence reports the strong pair
/// when the strong digest differs, else the weak pair.
pub fn verify(data: &[u8], expected: &Checksums) -> (r: Result<(), StorageError>)
    ensures
        r is Ok <==> (md5_hex_of(data@) == expected.md5@ && sha256_hex_of(data@)
            == expected.sha256@),
        sha256_hex_of(data@) != expected.sha256@ ==> (r matches Err(
            StorageError::ChecksumMismatch { expected: e, actual: a },
        ) && e@ == expected.sha256@ && a@ == sha256_hex_of(data@)),
        (sha256_hex_of(data@) == expected.sha256@ && md5_hex_of(data@) != expected.md5@) ==> (
        r matches Err(StorageError::ChecksumMismatch { expected: e, actual: a }) && e@
            == expected.md5@ && a@ == md5_hex_of(data@)),
{
    let c = digest(data);
    if !(c.sha256 == expected.sha256) {
        return Err(
            StorageError::ChecksumMismatch { expected: expected.sha256.clone(), actual: c.sha256 },
        );
    }
    if !(c.md5 == expected.md5) {
        return Err(
            StorageError::ChecksumMismatch { expected: expected.md5.clone(), actual: c.md5 },
        );
    }
    Ok(())
}

} // verus!
