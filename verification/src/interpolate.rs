//! Subdividing a CIDR block into the exact, gapless, ordered partition of
//! child blocks at a target prefix length.

use vstd::arithmetic::div_mod::{lemma_fundamental_div_mod, lemma_mod_multiples_vanish};
use vstd::arithmetic::mul::{lemma_mul_basics, lemma_mul_inequality};
use vstd::arithmetic::power2::{
    lemma2_to64, lemma_pow2_adds, lemma_pow2_pos, lemma_pow2_strictly_increases, pow2,
};
use vstd::prelude::*;

use crate::block::{family_bits, pow2_u128, Block};
use crate::error::IpamError;
use crate::model::{Selection, SelectionOperation};
use crate::schema::{Schema, SchemaDescription};
use crate::scope::Scope;

verus! {

/// A block in transit between construction paths: either a concrete block,
/// or an uninitialised placeholder that yields no children.
#[derive(Clone, Copy, Debug, PartialEq, Eq, Structural)]
pub struct ProtoScope {
    pub cidr: Option<Block>,
}

impl ProtoScope {
    /// The held block, if any, is well-formed.
    pub open spec fn wf(self) -> bool {
        self.cidr matches Some(b) ==> b.wf()
    }

    /// The uninitialised placeholder.
    pub fn null() -> (r: Result<ProtoScope, IpamError>)
        ensures
            r == Ok::<ProtoScope, IpamError>(ProtoScope { cidr: None }),
    {
        Ok(ProtoScope { cidr: None })
    }

    /// A proto-scope around a concrete block.
    pub fn new_type_backed_proto_scope(backing: Block) -> (r: Result<ProtoScope, IpamError>)
        ensures
            r == Ok::<ProtoScope, IpamError>(ProtoScope { cidr: Some(backing) }),
    {
        Ok(ProtoScope { cidr: Some(backing) })
    }
}

/// The `i`-th child of `b` when cut at prefix length `q`: the bases advance
/// from `b.base` in strides of one child size.
pub open spec fn child_block(b: Block, q: u8, i: int) -> Block {
    Block {
        v6: b.v6,
        base: (b.base + i * pow2((family_bits(b.v6) - q) as nat)) as u128,
        prefix_length: q,
    }
}

/// The ordered partition of `b` into blocks of prefix length `q`.
pub open spec fn subdivision(b: Block, q: u8) -> Seq<Block> {
    Seq::new(pow2((q - b.prefix_length) as nat), |i: int| child_block(b, q, i))
}

/// The subdivision of a well-formed block at a strictly longer, family-valid
/// prefix length is an exact partition: it holds `2^(q - p)` well-formed
/// blocks of the requested length, the first starts at the parent's first
/// address, each next block starts right after the one before it, and the
/// last ends at the parent's last address.
pub proof fn lemma_subdivision_partition(b: Block, q: u8)
    requires
        b.wf(),
        b.prefix_length < q,
        q as nat <= family_bits(b.v6),
    ensures
        subdivision(b, q).len() == pow2((q - b.prefix_length) as nat),
        forall|i: int|
            0 <= i < subdivision(b, q).len() ==> subdivision(b, q)[i] == #[trigger] child_block(
                b,
                q,
                i,
            ),
        forall|i: int|
            0 <= i < subdivision(b, q).len() ==> (#[trigger] child_block(b, q, i)).wf()
                && child_block(b, q, i).v6 == b.v6 && child_block(b, q, i).prefix_length == q
                && child_block(b, q, i).base as int == b.base + i * pow2(
                (family_bits(b.v6) - q) as nat,
            ) && b.first_spec() <= child_block(b, q, i).base && child_block(b, q, i).last_spec()
                <= b.last_spec(),
        child_block(b, q, 0).first_spec() == b.first_spec(),
        forall|i: int|
            1 <= i < subdivision(b, q).len() ==> (#[trigger] child_block(b, q, i)).first_spec()
                as int == child_block(b, q, i - 1).last_spec() + 1,
        child_block(b, q, subdivision(b, q).len() - 1).last_spec() == b.last_spec(),
{
    let p = b.prefix_length as nat;
    let bits = family_bits(b.v6);
    let step = pow2((bits - q) as nat) as int;
    let n = pow2((q as nat - p) as nat) as int;
    let base = b.base as int;
    lemma_pow2_pos((bits - q) as nat);
    lemma_pow2_pos((q as nat - p) as nat);
    lemma_pow2_pos((bits - p) as nat);
    lemma_pow2_adds((q as nat - p) as nat, (bits - q) as nat);
    assert(pow2((bits - p) as nat) == n * step);
    b.lemma_last_in_family();
    assert(base + n * step <= pow2(bits));
    // the base is a multiple of the stride
    lemma_fundamental_div_mod(base, pow2((bits - p) as nat) as int);
    let k = base / pow2((bits - p) as nat) as int;
    assert(base == k * (n * step));
    assert(base % step == 0) by {
        assert(k * (n * step) == (k * n) * step) by (nonlinear_arith);
        lemma_mod_multiples_vanish(k * n, 0, step);
    }
    assert forall|i: int| 0 <= i < n implies (#[trigger] child_block(b, q, i)).wf() && child_block(
        b,
        q,
        i,
    ).base as int == base + i * step && child_block(b, q, i).last_spec() <= b.last_spec() by {
        assert(i * step >= 0) by (nonlinear_arith)
            requires
                i >= 0,
                step > 0,
        ;
        assert(i + 1 <= n);
        lemma_mul_inequality(i + 1, n, step);
        assert((i + 1) * step == i * step + step) by (nonlinear_arith);
        assert(base + i * step + step <= base + n * step);
        assert(base + i * step < pow2(bits));
        if b.v6 {
            crate::block::lemma_pow2_128();
        } else {
            crate::block::lemma_pow2_32();
        }
        assert(child_block(b, q, i).base as int == base + i * step);
        assert((base + i * step) % step == 0) by {
            lemma_mod_multiples_vanish(i, base, step);
        }
        assert(child_block(b, q, i).size() == step);
    }
    assert(child_block(b, q, 0).first_spec() == b.first_spec()) by {
        lemma_mul_basics(step);
    }
    assert forall|i: int| 1 <= i < n implies (#[trigger] child_block(b, q, i)).first_spec() as int
        == child_block(b, q, i - 1).last_spec() + 1 by {
        assert(i * step == (i - 1) * step + step) by (nonlinear_arith);
    }
    assert(child_block(b, q, n - 1).last_spec() == b.last_spec()) by {
        assert((n - 1) * step == n * step - step) by (nonlinear_arith);
        assert(b.size() == n * step);
    }
}

impl ProtoScope {
    /// The ordered, exact partition of the held block into blocks of the
    /// requested prefix length.
    ///
    /// An uninitialised proto-scope, and a prefix length past the family
    /// width, yield no children: both are legitimate terminal cases of the
    /// recursive bootstrap.  A prefix length that does not cut the block
    /// strictly finer is rejected with `InvalidSubdivision`.  The partition
    /// is materialised into a vector, so the target may cut at most 63 bits
    /// finer than the block: the child count must fit a machine word.
    pub fn children(&self, new_prefix_length: u8) -> (r: Result<Vec<ProtoScope>, IpamError>)
        requires
            self.wf(),
            self.cidr matches Some(b) ==> (new_prefix_length > b.prefix_length
                ==> new_prefix_length - b.prefix_length <= 63),
        ensures
            self.cidr is None ==> (r matches Ok(v) && v@.len() == 0),
            self.cidr matches Some(b) ==> if new_prefix_length <= b.prefix_length {
                r == Err::<Vec<ProtoScope>, IpamError>(IpamError::InvalidSubdivision)
            } else if (new_prefix_length as nat) > b.bits() {
                r matches Ok(v) && v@.len() == 0
            } else {
                r matches Ok(v) && v@.len() == pow2((new_prefix_length - b.prefix_length) as nat)
                    && (forall|i: int|
                    0 <= i < v@.len() ==> (#[trigger] v@[i]).cidr == Some(
                        child_block(b, new_prefix_length, i),
                    ) && v@[i].wf())
            },
    {
        let b = match self.cidr {
            Some(b) => b,
            None => {
                return Ok(Vec::new());
            },
        };
        if new_prefix_length <= b.prefix_length {
            return Err(IpamError::InvalidSubdivision);
        }
        let bits: u8 = if b.v6 {
            128
        } else {
            32
        };
        if new_prefix_length > bits {
            return Ok(Vec::new());
        }
        proof {
            lemma_subdivision_partition(b, new_prefix_length);
            lemma_pow2_strictly_increases(
                (new_prefix_length - b.prefix_length) as nat,
                64,
            );
            lemma2_to64();
        }
        let step: u128 = pow2_u128(bits - new_prefix_length);
        let count_wide: u128 = pow2_u128(new_prefix_length - b.prefix_length);
        let count: u64 = count_wide as u64;
        let mut out: Vec<ProtoScope> = Vec::new();
        let mut i: u64 = 0;
        while i < count
            invariant
                i <= count,
                out@.len() == i as int,
                step == pow2((family_bits(b.v6) - new_prefix_length) as nat),
                count == pow2((new_prefix_length - b.prefix_length) as nat),
                forall|j: int|
                    0 <= j < count as int ==> (#[trigger] child_block(b, new_prefix_length, j)).wf()
                        && child_block(b, new_prefix_length, j).base as int == b.base + j * step
                        && b.base + j * step <= u128::MAX,
                forall|j: int|
                    0 <= j < i as int ==> (#[trigger] out@[j]).cidr == Some(
                        child_block(b, new_prefix_length, j),
                    ) && out@[j].wf(),
            decreases count - i,
        {
            proof {
                assert(child_block(b, new_prefix_length, i as int).wf());
            }
            let base_i: u128 = b.base + (i as u128) * step;
            out.push(
                ProtoScope {
                    cidr: Some(Block { v6: b.v6, base: base_i, prefix_length: new_prefix_length }),
                },
            );
            i = i + 1;
        }
        Ok(out)
    }
}

impl ProtoScope {
    /// Builds a pool record from the held block: the pool identifier is the
    /// block's base address, the first description slot carries the block's
    /// sizing, and the parent link is taken from the given parent selection.
    ///
    /// When the new pool's identifier coincides with the parent's own, the
    /// selection is tagged `UPDATE_PARENT_DESCRIPTIONS` so the caller folds
    /// it into the parent's second description slot instead of persisting it
    /// as a node of its own — the same coincidence rule the literal-text
    /// constructor applies.  An uninitialised proto-scope denotes no block
    /// and is rejected with `ParseError`.
    pub fn schema_from_proto_scope(&self, parent: Option<&Selection<Schema>>) -> (r: Result<
        Selection<Schema>,
        IpamError,
    >)
        ensures
            self.cidr is None ==> r == Err::<Selection<Schema>, IpamError>(IpamError::ParseError),
            self.cidr matches Some(b) ==> (r matches Ok(sel) && sel.actual.pool == b.base
                && sel.actual.descriptions.0 == Some(
                SchemaDescription {
                    prefix_length: b.prefix_length,
                    allocation_prefix_length: b.prefix_length,
                    locked: false,
                },
            ) && sel.actual.descriptions.1 is None && sel.actual.parent == (match parent {
                Some(p) => Some(p.actual.pool),
                None => None::<u128>,
            }) && sel.selected_prefix_length == Some(b.prefix_length) && sel.saved == false
                && sel.operation == (if (parent matches Some(p) && p.actual.pool == b.base) {
                SelectionOperation::UPDATE_PARENT_DESCRIPTIONS
            } else {
                SelectionOperation::DEFAULT
            })),
    {
        let b = match self.cidr {
            Some(b) => b,
            None => {
                return Err(IpamError::ParseError);
            },
        };
        let parent_id: Option<u128> = match parent {
            Some(p) => Some(p.actual.pool),
            None => None,
        };
        let update_parent: bool = match parent_id {
            Some(id) => id == b.base,
            None => false,
        };
        Ok(
            Selection {
                actual: Schema {
                    pool: b.base,
                    descriptions: (
                        Some(
                            SchemaDescription {
                                prefix_length: b.prefix_length,
                                allocation_prefix_length: b.prefix_length,
                                locked: false,
                            },
                        ),
                        None,
                    ),
                    parent: parent_id,
                },
                selected_prefix_length: Some(b.prefix_length),
                saved: false,
                operation: if update_parent {
                    SelectionOperation::UPDATE_PARENT_DESCRIPTIONS
                } else {
                    SelectionOperation::DEFAULT
                },
            },
        )
    }

    /// Builds a scope record from the held block: the identifier is the
    /// block's base address, the parent link is taken from the given parent
    /// selection, both timestamps are set to `now`, and the description list
    /// starts empty.  An uninitialised proto-scope is rejected with
    /// `ParseError`.
    pub fn scope_from_proto_scope(&self, parent: Option<&Selection<Scope>>, now: u64) -> (r:
        Result<Selection<Scope>, IpamError>)
        ensures
            self.cidr is None ==> r == Err::<Selection<Scope>, IpamError>(IpamError::ParseError),
            self.cidr matches Some(b) ==> (r matches Ok(sel) && sel.actual.id == b.base
                && sel.actual.parent == (match parent {
                Some(p) => Some(p.actual.id),
                None => None::<u128>,
            }) && sel.actual.modified == now && sel.actual.created == now
                && sel.actual.descriptions@.len() == 0 && sel.selected_prefix_length == Some(
                b.prefix_length,
            ) && sel.saved == false && sel.operation == SelectionOperation::DEFAULT),
    {
        let b = match self.cidr {
            Some(b) => b,
            None => {
                return Err(IpamError::ParseError);
            },
        };
        let parent_id: Option<u128> = match parent {
            Some(p) => Some(p.actual.id),
            None => None,
        };
        Ok(
            Selection {
                actual: Scope {
                    id: b.base,
                    parent: parent_id,
                    modified: now,
                    created: now,
                    descriptions: Vec::new(),
                },
                selected_prefix_length: Some(b.prefix_length),
                saved: false,
                operation: SelectionOperation::DEFAULT,
            },
        )
    }
}

} // verus!
