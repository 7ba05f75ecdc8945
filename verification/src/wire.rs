//! The framing layer of the wire protocol: each message travels as a
//! 4-byte big-endian length followed by that many payload bytes. The
//! framing arithmetic is verified here; moving bytes over a socket and
//! encoding payloads is the caller's business.

use vstd::prelude::*;

verus! {

/// The big-endian digits of a 32-bit length.
pub open spec fn be_bytes_of(n: u32) -> Seq<u8> {
    seq![
        (n / 0x1000000) as u8,
        ((n / 0x10000) % 0x100) as u8,
        ((n / 0x100) % 0x100) as u8,
        (n % 0x100) as u8,
    ]
}

/// The value the four big-endian digits stand for.
pub open spec fn be_value_of(b0: u8, b1: u8, b2: u8, b3: u8) -> int {
    b0 * 0x1000000 + b1 * 0x10000 + b2 * 0x100 + b3
}

/// Reading back the digits of a length gives the length.
pub proof fn lemma_be_round_trip(n: u32)
    ensures
        be_value_of(
            (n / 0x1000000) as u8,
            ((n / 0x10000) % 0x100) as u8,
            ((n / 0x100) % 0x100) as u8,
            (n % 0x100) as u8,
        ) == n,
{
    assert((n / 0x1000000) as u8 == n / 0x1000000) by (bit_vector);
    assert(n / 0x1000000 * 0x1000000 + (n / 0x10000) % 0x100 * 0x10000 + (n / 0x100) % 0x100
        * 0x100 + n % 0x100 == n) by (bit_vector);
}

/// The digits of a value below 2^32 read back from digits are the digits.
pub proof fn lemma_be_digits_unique(b0: u8, b1: u8, b2: u8, b3: u8)
    ensures
        ({
            let n = be_value_of(b0, b1, b2, b3);
            0 <= n <= u32::MAX && be_bytes_of(n as u32) == seq![b0, b1, b2, b3]
        }),
{
    let n = be_value_of(b0, b1, b2, b3);
    assert(n <= 0xff * 0x1000000 + 0xff * 0x10000 + 0xff * 0x100 + 0xff);
    let m = n as u32;
    assert(m == b0 * 0x1000000 + b1 * 0x10000 + b2 * 0x100 + b3);
    assert(m / 0x1000000 == b0 && (m / 0x10000) % 0x100 == b1 && (m / 0x100) % 0x100 == b2 && m
        % 0x100 == b3) by (bit_vector)
        requires
            m == b0 * 0x1000000 + b1 * 0x10000 + b2 * 0x100 + b3,
    ;
    assert(be_bytes_of(m) =~= seq![b0, b1, b2, b3]);
}

/// The four big-endian digits of a length.
pub fn u32_to_be_bytes(n: u32) -> (r: Vec<u8>)
    ensures
        r@ == be_bytes_of(n),
        r@.len() == 4,
{
    proof {
        assert(n / 0x1000000 < 0x100 && (n / 0x10000) % 0x100 < 0x100 && (n / 0x100) % 0x100
            < 0x100 && n % 0x100 < 0x100) by (bit_vector);
    }
    let mut r: Vec<u8> = Vec::new();
    r.push((n / 0x1000000) as u8);
    r.push(((n / 0x10000) % 0x100) as u8);
    r.push(((n / 0x100) % 0x100) as u8);
    r.push((n % 0x100) as u8);
    proof {
        assert(r@ =~= be_bytes_of(n));
    }
    r
}

/// The length four big-endian digits stand for.
pub fn u32_from_be_bytes(b0: u8, b1: u8, b2: u8, b3: u8) -> (r: u32)
    ensures
        r == be_value_of(b0, b1, b2, b3),
        be_bytes_of(r) == seq![b0, b1, b2, b3],
{
    proof {
        lemma_be_digits_unique(b0, b1, b2, b3);
    }
    (b0 as u32) * 0x1000000 + (b1 as u32) * 0x10000 + (b2 as u32) * 0x100 + (b3 as u32)
}

/// A whole frame: the payload's length as four big-endian bytes, then the
/// payload.
#[verifier::loop_isolation(false)]
pub fn encode_frame(payload: &Vec<u8>) -> (r: Vec<u8>)
    requires
        payload@.len() <= u32::MAX,
    ensures
        r@ == be_bytes_of(payload@.len() as u32) + payload@,
{
    let n = payload.len() as u32;
    let mut r = u32_to_be_bytes(n);
    let mut k: usize = 0;
    while k < payload.len()
        invariant
            k <= payload@.len(),
            r@ == be_bytes_of(n) + payload@.subrange(0, k as int),
        decreases payload@.len() - k,
    {
        r.push(payload[k]);
        proof {
            assert(r@ =~= be_bytes_of(n) + payload@.subrange(0, k + 1));
        }
        k += 1;
    }
    proof {
        assert(payload@.subrange(0, payload@.len() as int) =~= payload@);
    }
    r
}

} // verus!
