//! Big-endian byte encoding of 128-bit address identifiers, used inside the
//! persisted record encodings.

use vstd::bytes::{
    lemma_auto_spec_u128_to_from_le_bytes, spec_u128_from_le_bytes, spec_u128_to_le_bytes,
    u128_from_le_bytes, u128_to_le_bytes,
};
use vstd::prelude::*;

verus! {

/// The sixteen big-endian bytes of a 128-bit value.
pub open spec fn spec_be_bytes(x: u128) -> Seq<u8> {
    spec_u128_to_le_bytes(x).reverse()
}

/// The 128-bit value denoted by sixteen big-endian bytes.
pub open spec fn spec_u128_of_be(s: Seq<u8>) -> u128 {
    spec_u128_from_le_bytes(s.reverse())
}

/// The big-endian encoding is sixteen bytes long and decodes to the value it
/// was made from.
pub proof fn lemma_be_bytes_round_trip(x: u128)
    ensures
        spec_be_bytes(x).len() == 16,
        spec_u128_of_be(spec_be_bytes(x)) == x,
{
    lemma_auto_spec_u128_to_from_le_bytes();
    let le = spec_u128_to_le_bytes(x);
    assert(le.reverse().reverse() =~= le);
}

/// Two values with the same big-endian encoding are equal.
pub proof fn lemma_be_bytes_injective(x: u128, y: u128)
    requires
        spec_be_bytes(x) == spec_be_bytes(y),
    ensures
        x == y,
{
    lemma_be_bytes_round_trip(x);
    lemma_be_bytes_round_trip(y);
}

/// Appends the big-endian bytes of `x` to `dst`.
pub fn write_be_u128(dst: &mut Vec<u8>, x: u128)
    ensures
        final(dst)@ == old(dst)@ + spec_be_bytes(x),
{
    let le: Vec<u8> = u128_to_le_bytes(x);
    let mut i: usize = 0;
    while i < 16
        invariant
            i <= 16,
            le@ == spec_u128_to_le_bytes(x),
            le@.len() == 16,
            dst@ == old(dst)@ + spec_be_bytes(x).take(i as int),
        decreases 16 - i,
    {
        dst.push(le[15 - i]);
        proof {
            assert(spec_be_bytes(x)[i as int] == le@[15 - i as int]);
            assert(dst@ =~= old(dst)@ + spec_be_bytes(x).take(i + 1 as int));
        }
        i = i + 1;
    }
    proof {
        assert(spec_be_bytes(x).take(16) =~= spec_be_bytes(x));
    }
}

/// Reads the sixteen big-endian bytes starting at `off` in `b`.
pub fn read_be_u128(b: &Vec<u8>, off: usize) -> (x: u128)
    requires
        off + 16 <= b@.len(),
    ensures
        x == spec_u128_of_be(b@.subrange(off as int, off + 16)),
{
    let mut buf: Vec<u8> = Vec::new();
    let ghost sub: Seq<u8> = b@.subrange(off as int, off + 16);
    let n: usize = b.len();
    let mut i: usize = 0;
    while i < 16
        invariant
            i <= 16,
            n == b@.len(),
            off + 16 <= n,
            sub == b@.subrange(off as int, off + 16),
            buf@ == sub.reverse().take(i as int),
        decreases 16 - i,
    {
        buf.push(b[off + 15 - i]);
        proof {
            assert(sub.reverse()[i as int] == sub[15 - i as int]);
            assert(sub[15 - i as int] == b@[off + 15 - i as int]);
            assert(buf@ =~= sub.reverse().take(i + 1 as int));
        }
        i = i + 1;
    }
    proof {
        assert(buf@ =~= sub.reverse());
    }
    u128_from_le_bytes(buf.as_slice())
}

} // verus!
