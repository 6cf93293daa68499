//! Plain-value models of IP addresses and CIDR blocks, and the arithmetic
//! facts about them that the rest of the library builds on.
//!
//! An address is carried as an unsigned 128-bit value together with its
//! family; IPv4 values occupy `[0, 2^32)`.  A block is a base address plus a
//! prefix length whose host bits are zero.

use vstd::arithmetic::div_mod::lemma_fundamental_div_mod;
use vstd::arithmetic::mul::lemma_mul_inequality;
use vstd::arithmetic::power2::{
    lemma2_to64, lemma_pow2_adds, lemma_pow2_pos, lemma_pow2_strictly_increases,
    lemma_pow2_unfold, pow2,
};
use vstd::prelude::*;

use crate::error::IpamError;

verus! {

/// Number of address bits of a family: 128 for IPv6, 32 for IPv4.
pub open spec fn family_bits(v6: bool) -> nat {
    if v6 {
        128nat
    } else {
        32nat
    }
}

/// `pow2(128)`, the first value past the IPv6 address space.
pub proof fn lemma_pow2_128()
    ensures
        pow2(128) == 0x1_0000_0000_0000_0000_0000_0000_0000_0000,
{
    lemma2_to64();
    lemma_pow2_adds(64, 64);
}

/// `pow2(32)`, the first value past the IPv4 address space.
pub proof fn lemma_pow2_32()
    ensures
        pow2(32) == 0x1_0000_0000,
{
    lemma2_to64();
}

/// An IP address of either family as a plain value.  The family is carried
/// explicitly; a well-formed IPv4 value lies below `2^32`.
#[derive(Clone, Copy, Debug, PartialEq, Eq, Structural)]
pub struct IpAddress {
    pub v6: bool,
    pub value: u128,
}

impl IpAddress {
    /// An IPv4 address fits in 32 bits; an IPv6 address may use the full width.
    pub open spec fn wf(self) -> bool {
        !self.v6 ==> self.value <= u32::MAX as u128
    }
}

/// A CIDR block: an address family, a base address and a prefix length.
/// Well-formedness asks that the base is the first address of the block,
/// i.e. that all host bits are zero.
#[derive(Clone, Copy, Debug, PartialEq, Eq, Structural)]
pub struct Block {
    pub v6: bool,
    pub base: u128,
    pub prefix_length: u8,
}

impl Block {
    /// Address bits of this block's family.
    pub open spec fn bits(self) -> nat {
        family_bits(self.v6)
    }

    /// Number of addresses the block covers: `2^(bits - prefix_length)`.
    pub open spec fn size(self) -> nat
        recommends
            self.prefix_length as nat <= self.bits(),
    {
        pow2((self.bits() - self.prefix_length) as nat)
    }

    /// The prefix length denotes a valid mask, the base fits the family and
    /// its host bits are zero.
    pub open spec fn wf(self) -> bool {
        &&& self.prefix_length as nat <= self.bits()
        &&& (!self.v6 ==> self.base <= u32::MAX as u128)
        &&& self.base as nat % self.size() == 0
    }

    /// First address of the block.
    pub open spec fn first_spec(self) -> u128 {
        self.base
    }

    /// Last address of the block, as an unbounded integer.
    pub open spec fn last_spec(self) -> int {
        self.base + self.size() - 1
    }

    /// A well-formed block ends within its family's address space.
    pub proof fn lemma_last_in_family(self)
        requires
            self.wf(),
        ensures
            self.last_spec() < pow2(self.bits()),
            self.base + self.size() <= pow2(self.bits()),
    {
        let size = self.size() as int;
        let bits = self.bits();
        let prefix = self.prefix_length as nat;
        lemma_pow2_pos((bits - prefix) as nat);
        lemma_pow2_adds(prefix, (bits - prefix) as nat);
        // base is a multiple of size: base == q * size
        lemma_fundamental_div_mod(self.base as int, size);
        let q = self.base as int / size;
        assert(self.base as int == q * size);
        // base < pow2(bits) for either family
        if self.v6 {
            lemma_pow2_128();
            assert(self.base < pow2(128));
        } else {
            lemma_pow2_32();
            assert(self.base < pow2(32));
        }
        // q * size < pow2(prefix) * size, so q < pow2(prefix), so q + 1 <= pow2(prefix)
        assert(q * size < pow2(prefix) * size);
        if q >= pow2(prefix) {
            lemma_mul_inequality(pow2(prefix) as int, q, size);
            assert(false);
        }
        assert(q + 1 <= pow2(prefix));
        lemma_mul_inequality(q + 1, pow2(prefix) as int, size);
        assert((q + 1) * size <= pow2(prefix) * size);
        assert((q + 1) * size == q * size + size) by (nonlinear_arith);
    }
}

/// `2^e` as an executable 128-bit value.
pub fn pow2_u128(e: u8) -> (r: u128)
    requires
        e < 128,
    ensures
        r == pow2(e as nat),
{
    proof {
        lemma2_to64();
    }
    let mut r: u128 = 1;
    let mut i: u8 = 0;
    while i < e
        invariant
            i <= e,
            e < 128,
            r == pow2(i as nat),
        decreases e - i,
    {
        proof {
            lemma_pow2_unfold((i + 1) as nat);
            lemma_pow2_strictly_increases((i + 1) as nat, 128);
            lemma_pow2_128();
        }
        r = r * 2;
        i = i + 1;
    }
    r
}

impl Block {
    /// Builds the block denoted by an address and a prefix length, rejecting
    /// a prefix longer than the family allows and a base with host bits set,
    /// as the textual CIDR parser does.
    pub fn new(addr: IpAddress, prefix_length: u8) -> (r: Result<Block, IpamError>)
        requires
            addr.wf(),
        ensures
            ({
                let b = Block { v6: addr.v6, base: addr.value, prefix_length };
                if b.wf() {
                    r == Ok::<Block, IpamError>(b)
                } else {
                    r == Err::<Block, IpamError>(IpamError::ParseError)
                }
            }),
    {
        let bits: u8 = if addr.v6 {
            128
        } else {
            32
        };
        let b = Block { v6: addr.v6, base: addr.value, prefix_length };
        if prefix_length > bits {
            return Err(IpamError::ParseError);
        }
        if addr.v6 && prefix_length == 0 {
            // the only block of size 2^128; every base is reduced mod 2^128
            proof {
                lemma_pow2_128();
                assert(b.size() == pow2(128));
                assert(addr.value as nat % pow2(128) == addr.value as nat);
            }
            if addr.value == 0 {
                return Ok(b);
            } else {
                return Err(IpamError::ParseError);
            }
        }
        let size: u128 = pow2_u128(bits - prefix_length);
        proof {
            lemma_pow2_pos((bits - prefix_length) as nat);
        }
        if addr.value % size == 0 {
            Ok(b)
        } else {
            Err(IpamError::ParseError)
        }
    }

    /// First address of the block.
    pub fn first_address(&self) -> (r: u128)
        ensures
            r == self.first_spec(),
    {
        self.base
    }

    /// Last address of the block.
    pub fn last_address(&self) -> (r: u128)
        requires
            self.wf(),
        ensures
            r as int == self.last_spec(),
    {
        proof {
            self.lemma_last_in_family();
        }
        if self.v6 && self.prefix_length == 0 {
            proof {
                lemma_pow2_128();
            }
            u128::MAX
        } else {
            let bits: u8 = if self.v6 {
                128
            } else {
                32
            };
            let size: u128 = pow2_u128(bits - self.prefix_length);
            proof {
                lemma_pow2_pos((bits - self.prefix_length) as nat);
                if self.v6 {
                    lemma_pow2_128();
                } else {
                    lemma_pow2_32();
                }
            }
            self.base + (size - 1)
        }
    }
}

/// The block a persisted pool record denotes: the family is inferred from the
/// magnitude of the stored identifier (`> u32::MAX` means IPv6).
pub open spec fn block_of_id(id: u128, prefix_length: u8) -> Block {
    Block { v6: id > u32::MAX as u128, base: id, prefix_length }
}

} // verus!
