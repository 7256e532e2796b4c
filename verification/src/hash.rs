//! The hash function of the hash index: a SHA-256 digest of a value's
//! decimal representation, reduced modulo the number of buckets.

use sha2::{Digest, Sha256};
use vstd::prelude::*;

verus! {

/// The SHA-256 digest of a byte string.
pub uninterp spec fn sha256(data: Seq<u8>) -> Seq<u8>;

/// Computes a SHA-256 digest with `sha2::Sha256::digest`.
///
/// Trusted: the result is the digest of `data`, a function of the bytes
/// alone, and is 32 bytes long, which is the output size of `Sha256`.
#[verifier::external_body]
fn sha256_digest(data: &Vec<u8>) -> (digest: Vec<u8>)
    ensures
        digest@ == sha256(data@),
        digest@.len() == 32,
{
    Sha256::digest(data).to_vec()
}

/// The decimal digits of `n`, most significant first, in ASCII.
pub open spec fn digits(n: nat) -> Seq<u8>
    decreases n,
{
    if n < 10 {
        seq![(48 + n) as u8]
    } else {
        digits(n / 10).push((48 + n % 10) as u8)
    }
}

/// The decimal representation of `value` in ASCII: its digits, after a minus
/// sign where it is negative.
pub open spec fn decimal(value: int) -> Seq<u8> {
    if value < 0 {
        seq![45u8] + digits((-value) as nat)
    } else {
        digits(value as nat)
    }
}

/// Writes `value` in decimal.
pub fn to_decimal(value: i64) -> (text: Vec<u8>)
    ensures
        text@ == decimal(value as int),
{
    let magnitude: u64 = if value < 0 {
        (-(value as i128)) as u64
    } else {
        value as u64
    };
    let mut text: Vec<u8> = Vec::new();
    let mut rest: u64 = magnitude;
    loop
        invariant_except_break
            digits(magnitude as nat) == digits(rest as nat) + text@,
        ensures
            text@ == digits(magnitude as nat),
        decreases rest,
    {
        let ghost before = text@;
        if rest < 10 {
            text.insert(0, 48 + rest as u8);
            assert(text@ =~= digits(rest as nat) + before);
            break ;
        }
        text.insert(0, 48 + (rest % 10) as u8);
        proof {
            assert(digits(rest as nat) + before =~= digits((rest / 10) as nat) + text@);
        }
        rest = rest / 10;
    }
    if value < 0 {
        text.insert(0, 45);
        assert(text@ =~= seq![45u8] + digits(magnitude as nat));
    }
    text
}

/// The number that the first eight bytes of `bytes` spell, most significant
/// byte first.
pub open spec fn leading_u64(bytes: Seq<u8>) -> int {
    ((((((bytes[0] as int * 256 + bytes[1] as int) * 256 + bytes[2] as int) * 256
        + bytes[3] as int) * 256 + bytes[4] as int) * 256 + bytes[5] as int) * 256
        + bytes[6] as int) * 256 + bytes[7] as int
}

/// Reads the first eight bytes of `bytes` as a big-endian number.
pub fn read_leading_u64(bytes: &Vec<u8>) -> (number: u64)
    requires
        bytes@.len() >= 8,
    ensures
        number == leading_u64(bytes@),
{
    let b0 = bytes[0] as u64;
    let b1 = bytes[1] as u64;
    let b2 = bytes[2] as u64;
    let b3 = bytes[3] as u64;
    let b4 = bytes[4] as u64;
    let b5 = bytes[5] as u64;
    let b6 = bytes[6] as u64;
    let b7 = bytes[7] as u64;
    let n1 = b0 * 256 + b1;
    let n2 = n1 * 256 + b2;
    let n3 = n2 * 256 + b3;
    let n4 = n3 * 256 + b4;
    let n5 = n4 * 256 + b5;
    let n6 = n5 * 256 + b6;
    n6 * 256 + b7
}

/// The bucket of `value` in a hash table of `num_buckets` buckets.
pub open spec fn bucket_of(value: i64, num_buckets: int) -> int {
    leading_u64(sha256(decimal(value as int))) % num_buckets
}

/// Hashes `value` to a bucket number below `num_buckets`.
pub fn generate_hash(value: i64, num_buckets: usize) -> (bucket: usize)
    requires
        num_buckets > 0,
    ensures
        bucket == bucket_of(value, num_buckets as int),
        bucket < num_buckets,
{
    let text = to_decimal(value);
    let digest = sha256_digest(&text);
    let number = read_leading_u64(&digest);
    (number % (num_buckets as u64)) as usize
}

} // verus!
