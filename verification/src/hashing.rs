//! Digests of artifact bytes, and lowercase hex encoding of digests.

use vstd::prelude::*;

use sha1::Digest;

use crate::text::push_char;

verus! {

/// What SHA-512 returns for the given bytes: a function of the input alone.
pub uninterp spec fn sha512_of(bytes: Seq<u8>) -> Seq<u8>;

/// What SHA-1 returns for the given bytes: a function of the input alone.
pub uninterp spec fn sha1_of(bytes: Seq<u8>) -> Seq<u8>;

/// Relies on `sha2::Sha512`: the 64-byte digest of the input bytes.
#[verifier::external_body]
pub(crate) fn sha512_digest(bytes: &Vec<u8>) -> (r: Vec<u8>)
    ensures
        r@ == sha512_of(bytes@),
        r@.len() == 64,
{
    let mut hasher = sha2::Sha512::new();
    hasher.update(bytes.as_slice());
    hasher.finalize().to_vec()
}

/// Relies on `sha1::Sha1`: the 20-byte digest of the input bytes.
#[verifier::external_body]
pub(crate) fn sha1_digest(bytes: &Vec<u8>) -> (r: Vec<u8>)
    ensures
        r@ == sha1_of(bytes@),
        r@.len() == 20,
{
    let mut hasher = sha1::Sha1::new();
    hasher.update(bytes.as_slice());
    hasher.finalize().to_vec()
}

/// The lowercase hex digit for a value below sixteen.
pub open spec fn hex_digit(n: u8) -> char {
    if n == 0 {
        '0'
    } else if n == 1 {
        '1'
    } else if n == 2 {
        '2'
    } else if n == 3 {
        '3'
    } else if n == 4 {
        '4'
    } else if n == 5 {
        '5'
    } else if n == 6 {
        '6'
    } else if n == 7 {
        '7'
    } else if n == 8 {
        '8'
    } else if n == 9 {
        '9'
    } else if n == 10 {
        'a'
    } else if n == 11 {
        'b'
    } else if n == 12 {
        'c'
    } else if n == 13 {
        'd'
    } else if n == 14 {
        'e'
    } else {
        'f'
    }
}

/// The lowercase hex encoding of a byte sequence: two digits per byte.
pub open spec fn hex_of(bytes: Seq<u8>) -> Seq<char>
    decreases bytes.len(),
{
    if bytes.len() == 0 {
        Seq::empty()
    } else {
        hex_of(bytes.drop_last()) + seq![
            hex_digit(bytes.last() / 16),
            hex_digit(bytes.last() % 16),
        ]
    }
}

/// One lowercase hex digit, matching `hex_digit`.
fn hex_digit_exec(n: u8) -> (c: char)
    requires
        n < 16,
    ensures
        c == hex_digit(n),
{
    match n {
        0 => '0',
        1 => '1',
        2 => '2',
        3 => '3',
        4 => '4',
        5 => '5',
        6 => '6',
        7 => '7',
        8 => '8',
        9 => '9',
        10 => 'a',
        11 => 'b',
        12 => 'c',
        13 => 'd',
        14 => 'e',
        _ => 'f',
    }
}

/// Lowercase hex encoding of bytes, matching `hex_of`.
pub fn hex_encode(bytes: &Vec<u8>) -> (r: String)
    ensures
        r@ == hex_of(bytes@),
        r@.len() == 2 * bytes@.len(),
{
    let n = bytes.len();
    let mut out = String::new();
    let mut i: usize = 0;
    while i < n
        invariant
            n == bytes@.len(),
            i <= n,
            out@ == hex_of(bytes@.subrange(0, i as int)),
            out@.len() == 2 * i,
        decreases n - i,
    {
        let b = bytes[i];
        push_char(&mut out, hex_digit_exec(b / 16));
        push_char(&mut out, hex_digit_exec(b % 16));
        proof {
            assert(bytes@.subrange(0, i + 1).drop_last() =~= bytes@.subrange(0, i as int));
            assert(bytes@.subrange(0, i + 1).last() == bytes@[i as int]);
            assert(out@ =~= hex_of(bytes@.subrange(0, i + 1)));
        }
        i = i + 1;
    }
    proof {
        assert(bytes@.subrange(0, n as int) =~= bytes@);
    }
    out
}

/// The lowercase hex SHA-512 of the given bytes.
pub fn sha512_hex(bytes: &Vec<u8>) -> (r: String)
    ensures
        r@ == hex_of(sha512_of(bytes@)),
        r@.len() == 128,
{
    let digest = sha512_digest(bytes);
    hex_encode(&digest)
}

/// The lowercase hex SHA-1 of the given bytes.
pub fn sha1_hex(bytes: &Vec<u8>) -> (r: String)
    ensures
        r@ == hex_of(sha1_of(bytes@)),
        r@.len() == 40,
{
    let digest = sha1_digest(bytes);
    hex_encode(&digest)
}

} // verus!
