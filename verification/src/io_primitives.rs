//! Big-endian encoding of the 32-bit integers of the peer wire protocol.

use vstd::prelude::*;

verus! {

/// The number that four bytes encode, most significant byte first.
pub open spec fn be_u32_value(b0: u8, b1: u8, b2: u8, b3: u8) -> int {
    b0 * 16777216 + b1 * 65536 + b2 * 256 + b3
}

/// The four bytes that encode `n`, most significant byte first.
pub open spec fn be_u32_bytes(n: u32) -> Seq<u8> {
    seq![
        (n / 16777216) as u8,
        ((n / 65536) % 256) as u8,
        ((n / 256) % 256) as u8,
        (n % 256) as u8,
    ]
}

/// Reads a big-endian `u32` from the first four bytes of `bytes`.
pub fn bytes_to_u32(bytes: &[u8]) -> (r: u32)
    requires
        bytes@.len() >= 4,
    ensures
        r as int == be_u32_value(bytes@[0], bytes@[1], bytes@[2], bytes@[3]),
{
    let b0 = bytes[0] as u32;
    let b1 = bytes[1] as u32;
    let b2 = bytes[2] as u32;
    let b3 = bytes[3] as u32;
    b0 * 16777216 + b1 * 65536 + b2 * 256 + b3
}

/// Encodes `integer` as four bytes, most significant first.
pub fn u32_to_bytes(integer: u32) -> (r: Vec<u8>)
    ensures
        r@ == be_u32_bytes(integer),
{
    let mut rest = integer;
    let first = rest / 16777216;
    rest = rest - first * 16777216;
    let second = rest / 65536;
    rest = rest - second * 65536;
    let third = rest / 256;
    rest = rest - third * 256;
    let fourth = rest;
    assert(second == (integer / 65536) % 256) by (nonlinear_arith)
        requires first == integer / 16777216, second == (integer - first * 16777216) / 65536;
    assert(third == (integer / 256) % 256) by (nonlinear_arith)
        requires first == integer / 16777216, second == (integer - first * 16777216) / 65536,
            third == (integer - first * 16777216 - second * 65536) / 256;
    assert(fourth == integer % 256) by (nonlinear_arith)
        requires first == integer / 16777216, second == (integer - first * 16777216) / 65536,
            third == (integer - first * 16777216 - second * 65536) / 256,
            fourth == integer - first * 16777216 - second * 65536 - third * 256;
    let v: Vec<u8> = vec![first as u8, second as u8, third as u8, fourth as u8];
    v
}

/// Decoding the encoding of a number gives the number back.
pub proof fn lemma_u32_roundtrip(n: u32)
    ensures
        be_u32_value(be_u32_bytes(n)[0], be_u32_bytes(n)[1], be_u32_bytes(n)[2], be_u32_bytes(n)[3]) == n,
{
    assert(be_u32_value(be_u32_bytes(n)[0], be_u32_bytes(n)[1], be_u32_bytes(n)[2], be_u32_bytes(n)[3]) == n)
        by (nonlinear_arith);
}

/// Encoding the number that four bytes decode to gives the bytes back.
pub proof fn lemma_bytes_roundtrip(b0: u8, b1: u8, b2: u8, b3: u8)
    ensures
        be_u32_value(b0, b1, b2, b3) <= u32::MAX,
        be_u32_bytes(be_u32_value(b0, b1, b2, b3) as u32) == seq![b0, b1, b2, b3],
{
    let n = be_u32_value(b0, b1, b2, b3);
    assert(0 <= n <= u32::MAX) by (nonlinear_arith)
        requires n == b0 * 16777216 + b1 * 65536 + b2 * 256 + b3, 0 <= b0 < 256, 0 <= b1 < 256, 0 <= b2 < 256, 0 <= b3 < 256;
    assert(n / 16777216 == b0 && (n / 65536) % 256 == b1 && (n / 256) % 256 == b2 && n % 256 == b3)
        by (nonlinear_arith) requires n == b0 * 16777216 + b1 * 65536 + b2 * 256 + b3, 0 <= b0 < 256, 0 <= b1 < 256, 0 <= b2 < 256, 0 <= b3 < 256;
    assert(be_u32_bytes(n as u32) =~= seq![b0, b1, b2, b3]);
}

/// Whether two byte strings are equal.
pub fn bytes_equal(a: &[u8], b: &[u8]) -> (r: bool)
    ensures
        r == (a@ == b@),
{
    if a.len() != b.len() {
        return false;
    }
    let mut i: usize = 0;
    while i < a.len()
        invariant
            a@.len() == b@.len(),
            i <= a@.len(),
            forall|k: int| 0 <= k < i ==> a@[k] == b@[k],
        decreases a.len() - i,
    {
        if a[i] != b[i] {
            return false;
        }
        i = i + 1;
    }
    assert(a@ =~= b@);
    true
}

/// The number that bytes `at..at + 4` of `bytes` encode, most significant first.
pub open spec fn u32_at_spec(bytes: Seq<u8>, at: int) -> int {
    be_u32_value(bytes[at], bytes[at + 1], bytes[at + 2], bytes[at + 3])
}

/// Reads a big-endian `u32` from bytes `at..at + 4` of `bytes`.
pub fn u32_at(bytes: &[u8], at: usize) -> (r: u32)
    requires
        at + 4 <= bytes@.len(),
    ensures
        r as int == u32_at_spec(bytes@, at as int),
{
    let b0 = bytes[at] as u32;
    let b1 = bytes[at + 1] as u32;
    let b2 = bytes[at + 2] as u32;
    let b3 = bytes[at + 3] as u32;
    b0 * 16777216 + b1 * 65536 + b2 * 256 + b3
}

} // verus!
