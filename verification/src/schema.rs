//! The persisted tree of address pools: record layout, byte encoding,
//! construction, and the bootstrap algorithm that seeds and subdivides the
//! root pool.

use vstd::arithmetic::mul::lemma_mul_strict_inequality;
use vstd::arithmetic::power2::{lemma2_to64, lemma_pow2_pos, lemma_pow2_strictly_increases, pow2};
use vstd::arithmetic::div_mod::lemma_small_mod;
use vstd::prelude::*;
use vstd::string::StringExecFns;

use crate::block::{block_of_id, family_bits, lemma_pow2_32, Block, IpAddress};
use crate::encoding::{
    lemma_be_bytes_round_trip, read_be_u128, spec_be_bytes, spec_u128_of_be, write_be_u128,
};
use crate::error::IpamError;
use crate::interpolate::{child_block, lemma_subdivision_partition, ProtoScope};
use crate::model::{locking_operations, Selection, SelectionOperation};
use crate::store::{lemma_spec_put_append, spec_put, Store};
use crate::util::{parse_cidr_spec, string_to_ip_cidr};

verus! {

/// Sizing metadata of one pool: the prefix length it was declared with, the
/// granularity its children are cut at, and a lock flag.
#[derive(Clone, Copy, Debug, PartialEq, Eq, Structural)]
pub struct SchemaDescription {
    pub prefix_length: u8,
    pub allocation_prefix_length: u8,
    pub locked: bool,
}

/// One pool record.  `pool` is the base address of the pool's block; the
/// first description slot holds the pool's own sizing metadata; the second
/// slot is written only when a subdivision's first child is folded into this
/// record; `parent` is `None` only for the root pool.
#[derive(Clone, Copy, Debug, PartialEq, Eq)]
pub struct Schema {
    pub pool: u128,
    pub descriptions: (Option<SchemaDescription>, Option<SchemaDescription>),
    pub parent: Option<u128>,
}

/// The three bytes a description is stored as.
pub open spec fn spec_enc_desc(d: SchemaDescription) -> Seq<u8> {
    seq![
        d.prefix_length,
        d.allocation_prefix_length,
        if d.locked {
            1u8
        } else {
            0u8
        },
    ]
}

/// An optional description: a presence byte, then the description bytes.
pub open spec fn spec_enc_opt_desc(d: Option<SchemaDescription>) -> Seq<u8> {
    match d {
        None => seq![0u8],
        Some(x) => seq![1u8] + spec_enc_desc(x),
    }
}

/// An optional identifier: a presence byte, then sixteen big-endian bytes.
pub open spec fn spec_enc_opt_id(p: Option<u128>) -> Seq<u8> {
    match p {
        None => seq![0u8],
        Some(x) => seq![1u8] + spec_be_bytes(x),
    }
}

/// The stored bytes of a pool record: the pool identifier, the two
/// description slots, the parent.
pub open spec fn spec_enc_schema(s: Schema) -> Seq<u8> {
    spec_be_bytes(s.pool) + spec_enc_opt_desc(s.descriptions.0) + spec_enc_opt_desc(
        s.descriptions.1,
    ) + spec_enc_opt_id(s.parent)
}

/// Reads an optional description at `off`; yields the value and the offset
/// past it.
pub open spec fn spec_dec_opt_desc(b: Seq<u8>, off: int) -> Option<
    (Option<SchemaDescription>, int),
> {
    if 0 <= off < b.len() && b[off] == 0 {
        Some((None, off + 1))
    } else if 0 <= off && off + 4 <= b.len() && b[off] == 1 && (b[off + 3] == 0 || b[off + 3]
        == 1) {
        Some(
            (
                Some(
                    SchemaDescription {
                        prefix_length: b[off + 1],
                        allocation_prefix_length: b[off + 2],
                        locked: b[off + 3] == 1,
                    },
                ),
                off + 4,
            ),
        )
    } else {
        None
    }
}

/// Reads an optional identifier at `off`; yields the value and the offset
/// past it.
pub open spec fn spec_dec_opt_id(b: Seq<u8>, off: int) -> Option<(Option<u128>, int)> {
    if 0 <= off < b.len() && b[off] == 0 {
        Some((None, off + 1))
    } else if 0 <= off && off + 17 <= b.len() && b[off] == 1 {
        Some((Some(spec_u128_of_be(b.subrange(off + 1, off + 17))), off + 17))
    } else {
        None
    }
}

/// Decodes a stored pool record; `None` when the bytes are not exactly one
/// encoded record.
pub open spec fn spec_dec_schema(b: Seq<u8>) -> Option<Schema> {
    if b.len() < 16 {
        None
    } else {
        let pool = spec_u128_of_be(b.subrange(0, 16));
        match spec_dec_opt_desc(b, 16) {
            None => None,
            Some((d0, o1)) => match spec_dec_opt_desc(b, o1) {
                None => None,
                Some((d1, o2)) => match spec_dec_opt_id(b, o2) {
                    None => None,
                    Some((parent, o3)) => if o3 == b.len() {
                        Some(Schema { pool, descriptions: (d0, d1), parent })
                    } else {
                        None
                    },
                },
            },
        }
    }
}

/// Decoding inverts encoding: every record comes back from its stored bytes.
pub proof fn lemma_schema_round_trip(s: Schema)
    ensures
        spec_dec_schema(spec_enc_schema(s)) == Some(s),
{
    let b = spec_enc_schema(s);
    lemma_be_bytes_round_trip(s.pool);
    let e0 = spec_be_bytes(s.pool);
    let e1 = spec_enc_opt_desc(s.descriptions.0);
    let e2 = spec_enc_opt_desc(s.descriptions.1);
    let e3 = spec_enc_opt_id(s.parent);
    assert(b =~= e0 + e1 + e2 + e3);
    assert(b.subrange(0, 16) =~= e0);
    let o1 = 16 + e1.len() as int;
    let o2 = o1 + e2.len() as int;
    assert(spec_dec_opt_desc(b, 16) == Some((s.descriptions.0, o1))) by {
        match s.descriptions.0 {
            None => {
                assert(b[16] == 0);
            },
            Some(x) => {
                assert(b[16] == 1);
                assert(b[17] == x.prefix_length);
                assert(b[18] == x.allocation_prefix_length);
                assert(b[19] == (if x.locked { 1u8 } else { 0u8 }));
            },
        }
    }
    assert(spec_dec_opt_desc(b, o1) == Some((s.descriptions.1, o2))) by {
        match s.descriptions.1 {
            None => {
                assert(b[o1] == 0);
            },
            Some(x) => {
                assert(b[o1] == 1);
                assert(b[o1 + 1] == x.prefix_length);
                assert(b[o1 + 2] == x.allocation_prefix_length);
                assert(b[o1 + 3] == (if x.locked { 1u8 } else { 0u8 }));
            },
        }
    }
    assert(spec_dec_opt_id(b, o2) == Some((s.parent, b.len() as int))) by {
        match s.parent {
            None => {
                assert(b[o2] == 0);
            },
            Some(x) => {
                assert(b[o2] == 1);
                lemma_be_bytes_round_trip(x);
                assert(b.subrange(o2 + 1, o2 + 17) =~= spec_be_bytes(x));
            },
        }
    }
}

impl Schema {
    /// The stored byte form of this record.
    pub fn encode_record(&self) -> (r: Vec<u8>)
        ensures
            r@ == spec_enc_schema(*self),
    {
        let mut out: Vec<u8> = Vec::new();
        write_be_u128(&mut out, self.pool);
        write_opt_desc(&mut out, &self.descriptions.0);
        write_opt_desc(&mut out, &self.descriptions.1);
        write_opt_id(&mut out, &self.parent);
        proof {
            assert(out@ =~= spec_enc_schema(*self));
        }
        out
    }

    /// Rebuilds a record from its stored bytes, wrapped in a fresh,
    /// not-yet-saved selection; `PersistenceError` when the bytes are not an
    /// encoded record.
    pub fn new_from_stored(value: &Vec<u8>) -> (r: Result<Selection<Schema>, IpamError>)
        ensures
            match spec_dec_schema(value@) {
                Some(s) => r matches Ok(sel) && sel.actual == s && sel.saved == false
                    && sel.selected_prefix_length is None && sel.operation
                    == SelectionOperation::DEFAULT,
                None => r == Err::<Selection<Schema>, IpamError>(IpamError::PersistenceError),
            },
    {
        match decode_schema(value) {
            Some(s) => Ok(
                Selection {
                    actual: s,
                    selected_prefix_length: None,
                    saved: false,
                    operation: SelectionOperation::DEFAULT,
                },
            ),
            None => Err(IpamError::PersistenceError),
        }
    }
}

/// Appends the encoding of an optional description.
fn write_opt_desc(dst: &mut Vec<u8>, d: &Option<SchemaDescription>)
    ensures
        final(dst)@ == old(dst)@ + spec_enc_opt_desc(*d),
{
    match d {
        None => {
            dst.push(0u8);
            proof {
                assert(dst@ =~= old(dst)@ + spec_enc_opt_desc(None::<SchemaDescription>));
            }
        },
        Some(x) => {
            dst.push(1u8);
            dst.push(x.prefix_length);
            dst.push(x.allocation_prefix_length);
            dst.push(
                if x.locked {
                    1u8
                } else {
                    0u8
                },
            );
            proof {
                assert(dst@ =~= old(dst)@ + spec_enc_opt_desc(Some(*x)));
            }
        },
    }
}

/// Appends the encoding of an optional identifier.
pub(crate) fn write_opt_id(dst: &mut Vec<u8>, p: &Option<u128>)
    ensures
        final(dst)@ == old(dst)@ + spec_enc_opt_id(*p),
{
    match p {
        None => {
            dst.push(0u8);
            proof {
                assert(dst@ =~= old(dst)@ + spec_enc_opt_id(None::<u128>));
            }
        },
        Some(x) => {
            dst.push(1u8);
            write_be_u128(dst, *x);
            proof {
                assert(dst@ =~= old(dst)@ + spec_enc_opt_id(Some(*x)));
            }
        },
    }
}

/// Reads an optional description, returning it with the offset past it.
fn read_opt_desc(b: &Vec<u8>, off: usize) -> (r: Option<(Option<SchemaDescription>, usize)>)
    ensures
        match spec_dec_opt_desc(b@, off as int) {
            Some((d, o)) => r matches Some(p) && p.0 == d && p.1 as int == o,
            None => r is None,
        },
{
    if off < b.len() && b[off] == 0 {
        Some((None, off + 1))
    } else if b.len() >= 4 && off <= b.len() - 4 && b[off] == 1 && (b[off + 3] == 0 || b[off + 3]
        == 1) {
        Some(
            (
                Some(
                    SchemaDescription {
                        prefix_length: b[off + 1],
                        allocation_prefix_length: b[off + 2],
                        locked: b[off + 3] == 1,
                    },
                ),
                off + 4,
            ),
        )
    } else {
        None
    }
}

/// Reads an optional identifier, returning it with the offset past it.
fn read_opt_id(b: &Vec<u8>, off: usize) -> (r: Option<(Option<u128>, usize)>)
    ensures
        match spec_dec_opt_id(b@, off as int) {
            Some((p, o)) => r matches Some(q) && q.0 == p && q.1 as int == o,
            None => r is None,
        },
{
    if off < b.len() && b[off] == 0 {
        Some((None, off + 1))
    } else if b.len() >= 17 && off <= b.len() - 17 && b[off] == 1 {
        let v: u128 = read_be_u128(b, off + 1);
        Some((Some(v), off + 17))
    } else {
        None
    }
}

/// Decodes one stored pool record.
fn decode_schema(b: &Vec<u8>) -> (r: Option<Schema>)
    ensures
        r == spec_dec_schema(b@),
{
    if b.len() < 16 {
        return None;
    }
    let pool: u128 = read_be_u128(b, 0);
    match read_opt_desc(b, 16) {
        None => None,
        Some((d0, o1)) => match read_opt_desc(b, o1) {
            None => None,
            Some((d1, o2)) => match read_opt_id(b, o2) {
                None => None,
                Some((parent, o3)) => {
                    if o3 == b.len() {
                        Some(Schema { pool, descriptions: (d0, d1), parent })
                    } else {
                        None
                    }
                },
            },
        },
    }
}

impl Schema {
    /// Builds a pool record from literal network text, a prefix length and
    /// an optional parent: the pool identifier is the block's base address
    /// and the first description slot carries the declared sizing.  The
    /// selection is tagged `UPDATE_PARENT_DESCRIPTIONS` exactly when a
    /// parent is given and the new pool's identifier equals the parent's.
    pub fn new_from_string(
        network: String,
        prefix_length: u8,
        parent: Option<&Selection<Schema>>,
    ) -> (r: Result<Selection<Schema>, IpamError>)
        ensures
            match parse_cidr_spec(network@, prefix_length) {
                None => r == Err::<Selection<Schema>, IpamError>(IpamError::ParseError),
                Some((v6, base)) => r matches Ok(sel) && sel.actual.pool == base
                    && sel.actual.descriptions.0 == Some(
                    SchemaDescription {
                        prefix_length,
                        allocation_prefix_length: prefix_length,
                        locked: false,
                    },
                ) && sel.actual.descriptions.1 is None && sel.actual.parent == (match parent {
                    Some(p) => Some(p.actual.pool),
                    None => None::<u128>,
                }) && sel.selected_prefix_length == Some(prefix_length) && sel.saved == false
                    && sel.operation == (if (parent matches Some(p) && p.actual.pool == base) {
                    SelectionOperation::UPDATE_PARENT_DESCRIPTIONS
                } else {
                    SelectionOperation::DEFAULT
                }) && (Block { v6, base, prefix_length }).wf(),
            },
    {
        let net: Block = match string_to_ip_cidr(network, prefix_length) {
            Ok(b) => b,
            Err(e) => {
                return Err(e);
            },
        };
        let parent_id: Option<u128> = match parent {
            Some(p) => Some(p.actual.pool),
            None => None,
        };
        let update_parent: bool = match parent_id {
            Some(id) => id == net.base,
            None => false,
        };
        Ok(
            Selection {
                actual: Schema {
                    pool: net.base,
                    descriptions: (
                        Some(
                            SchemaDescription {
                                prefix_length,
                                allocation_prefix_length: net.prefix_length,
                                locked: false,
                            },
                        ),
                        None,
                    ),
                    parent: parent_id,
                },
                selected_prefix_length: Some(prefix_length),
                saved: false,
                operation: if update_parent {
                    SelectionOperation::UPDATE_PARENT_DESCRIPTIONS
                } else {
                    SelectionOperation::DEFAULT
                },
            },
        )
    }

    /// Builds a pool record from a subdivision result; the fold-in tagging
    /// rule is the proto-scope constructor's.
    pub fn new_from_proto_scope(
        network: ProtoScope,
        parent: Option<&Selection<Schema>>,
    ) -> (r: Result<Selection<Schema>, IpamError>)
        ensures
            network.cidr is None ==> r == Err::<Selection<Schema>, IpamError>(
                IpamError::ParseError,
            ),
            network.cidr matches Some(b) ==> (r matches Ok(sel) && sel.actual.pool == b.base
                && sel.actual.descriptions.0 == Some(
                SchemaDescription {
                    prefix_length: b.prefix_length,
                    allocation_prefix_length: b.prefix_length,
                    locked: false,
                },
            ) && sel.actual.descriptions.1 is None && sel.actual.parent == (match parent {
                Some(p) => Some(p.actual.pool),
                None => None::<u128>,
            }) && sel.selected_prefix_length == Some(b.prefix_length) && sel.saved == false
                && sel.operation == (if (parent matches Some(p) && p.actual.pool == b.base) {
                SelectionOperation::UPDATE_PARENT_DESCRIPTIONS
            } else {
                SelectionOperation::DEFAULT
            })),
    {
        network.schema_from_proto_scope(parent)
    }

    /// Rebuilds the pool's block from its identifier and first description:
    /// the family is inferred from the identifier's magnitude.
    /// `MissingDescription` without sizing metadata; `ParseError` when the
    /// stored pair denotes no valid block.
    pub fn to_proto_scope(&self) -> (r: Result<ProtoScope, IpamError>)
        ensures
            self.descriptions.0 is None ==> r == Err::<ProtoScope, IpamError>(
                IpamError::MissingDescription,
            ),
            self.descriptions.0 matches Some(d) ==> (if block_of_id(
                self.pool,
                d.prefix_length,
            ).wf() {
                r == Ok::<ProtoScope, IpamError>(
                    ProtoScope { cidr: Some(block_of_id(self.pool, d.prefix_length)) },
                )
            } else {
                r == Err::<ProtoScope, IpamError>(IpamError::ParseError)
            }),
    {
        match self.descriptions.0 {
            None => Err(IpamError::MissingDescription),
            Some(d) => {
                let addr = IpAddress { v6: self.pool > (u32::MAX as u128), value: self.pool };
                match Block::new(addr, d.prefix_length) {
                    Ok(b) => Ok(ProtoScope { cidr: Some(b) }),
                    Err(_) => Err(IpamError::ParseError),
                }
            },
        }
    }

    /// A fresh, empty in-memory store.
    pub fn dao() -> (r: Result<Store, IpamError>)
        ensures
            r matches Ok(st) && st.wf() && !st.in_tx() && st.entries_seq().len() == 0,
    {
        Ok(Store::open_temp())
    }

    /// Opens a transaction on the pool store.
    pub fn begin_tx(db: &mut Store) -> (r: Result<(), IpamError>)
        requires
            old(db).wf(),
        ensures
            final(db).wf(),
            final(db).entries_seq() == old(db).entries_seq(),
            old(db).in_tx() ==> r == Err::<(), IpamError>(IpamError::TransactionStateError)
                && *final(db) == *old(db),
            !old(db).in_tx() ==> r == Ok::<(), IpamError>(()) && final(db).in_tx()
                && final(db).tx_base() == old(db).entries_seq(),
    {
        db.begin_tx()
    }

    /// Rolls the open transaction back.
    pub fn roll_back_tx(db: &mut Store) -> (r: Result<(), IpamError>)
        requires
            old(db).wf(),
        ensures
            final(db).wf(),
            !final(db).in_tx(),
            old(db).in_tx() ==> r == Ok::<(), IpamError>(())
                && final(db).entries_seq() == old(db).tx_base(),
            !old(db).in_tx() ==> r == Err::<(), IpamError>(IpamError::TransactionStateError)
                && *final(db) == *old(db),
    {
        db.roll_back_tx()
    }

    /// Commits the open transaction.
    pub fn commit(db: &mut Store) -> (r: Result<(), IpamError>)
        requires
            old(db).wf(),
        ensures
            final(db).wf(),
            final(db).entries_seq() == old(db).entries_seq(),
            !final(db).in_tx(),
            old(db).in_tx() ==> r == Ok::<(), IpamError>(()),
            !old(db).in_tx() ==> r == Err::<(), IpamError>(IpamError::TransactionStateError)
                && *final(db) == *old(db),
    {
        db.commit_tx()
    }

    /// Whether the pool store already holds any record.
    pub fn is_db_initialized(db: &Store) -> (r: Result<bool, IpamError>)
        ensures
            r matches Ok(v) && (v <==> db.entries_seq().len() != 0),
    {
        Ok(!db.is_empty())
    }

    /// Serialises a record selection and writes it under its pool
    /// identifier; `saved` flips to true.
    pub fn save(s: &mut Selection<Schema>, db: &mut Store) -> (r: Result<(), IpamError>)
        requires
            old(db).wf(),
        ensures
            r is Ok,
            final(db).wf(),
            final(db).in_tx() == old(db).in_tx(),
            old(db).in_tx() ==> final(db).tx_base() == old(db).tx_base(),
            final(db).entries_seq() == spec_put(
                old(db).entries_seq(),
                old(s).actual.pool,
                spec_enc_schema(old(s).actual),
            ),
            final(s).actual == old(s).actual,
            final(s).saved == true,
            final(s).selected_prefix_length == old(s).selected_prefix_length,
            final(s).operation == old(s).operation,
    {
        s.saved = true;
        let bytes: Vec<u8> = s.actual.encode_record();
        db.put(s.actual.pool, bytes)
    }

    /// Reads every stored pool record back, in ascending key order, each
    /// wrapped in a fresh selection; `PersistenceError` when any stored
    /// value does not decode.
    pub fn retrieve_all(db: &Store) -> (r: Result<Vec<Selection<Schema>>, IpamError>)
        ensures
            r is Ok <==> (forall|i: int|
                0 <= i < db.entries_seq().len() ==> spec_dec_schema(
                    #[trigger] db.entries_seq()[i].1,
                ) is Some),
            r is Err ==> r == Err::<Vec<Selection<Schema>>, IpamError>(IpamError::PersistenceError),
            r matches Ok(v) ==> v@.len() == db.entries_seq().len() && (forall|i: int|
                0 <= i < v@.len() ==> (#[trigger] v@[i]).actual == spec_dec_schema(
                    db.entries_seq()[i].1,
                )->Some_0 && v@[i].saved == false && v@[i].operation == SelectionOperation::DEFAULT
                    && v@[i].selected_prefix_length is None),
    {
        let n: usize = db.entry_count();
        let mut out: Vec<Selection<Schema>> = Vec::new();
        let mut i: usize = 0;
        while i < n
            invariant
                i <= n,
                n == db.entries_seq().len(),
                out@.len() == i as int,
                forall|j: int|
                    0 <= j < i as int ==> spec_dec_schema(#[trigger] db.entries_seq()[j].1) is Some,
                forall|j: int|
                    0 <= j < i as int ==> (#[trigger] out@[j]).actual == spec_dec_schema(
                        db.entries_seq()[j].1,
                    )->Some_0 && out@[j].saved == false && out@[j].operation
                        == SelectionOperation::DEFAULT && out@[j].selected_prefix_length is None,
            decreases n - i,
        {
            let value: &Vec<u8> = db.value_at(i);
            match Schema::new_from_stored(value) {
                Ok(sel) => {
                    out.push(sel);
                },
                Err(_) => {
                    return Err(IpamError::PersistenceError);
                },
            }
            i = i + 1;
        }
        Ok(out)
    }

    /// Selects a pool by tags: an allocation extension point, not yet
    /// realised.
    pub fn allocate_pool(_tags: Vec<String>) -> (r: Result<Selection<Schema>, IpamError>)
        ensures
            r == Err::<Selection<Schema>, IpamError>(IpamError::Unimplemented),
    {
        Err(IpamError::Unimplemented)
    }

    /// Allocates one address: an extension point, not yet realised.
    pub fn allocate_address(_network: String) -> (r: Result<Selection<Schema>, IpamError>)
        ensures
            r == Err::<Selection<Schema>, IpamError>(IpamError::Unimplemented),
    {
        Err(IpamError::Unimplemented)
    }

    /// Releases a pool: an extension point, not yet realised.
    pub fn release_pool(_network: String) -> (r: Result<(), IpamError>)
        ensures
            r == Err::<(), IpamError>(IpamError::Unimplemented),
    {
        Err(IpamError::Unimplemented)
    }

    /// Releases one address: an extension point, not yet realised.
    pub fn release_address(_network: String) -> (r: Result<(), IpamError>)
        ensures
            r == Err::<(), IpamError>(IpamError::Unimplemented),
    {
        Err(IpamError::Unimplemented)
    }

    /// Looks a record up by identifier: not yet realised.
    pub fn exists_in_database(_id: u128) -> (r: Result<bool, IpamError>)
        ensures
            r == Err::<bool, IpamError>(IpamError::Unimplemented),
    {
        Err(IpamError::Unimplemented)
    }
}

impl locking_operations for Selection<Schema> {
    fn lock(&self) -> Result<bool, IpamError> {
        Err(IpamError::Unimplemented)
    }

    fn unlock(&self) -> Result<bool, IpamError> {
        Err(IpamError::Unimplemented)
    }

    fn is_locked(&self) -> Result<bool, IpamError> {
        Err(IpamError::Unimplemented)
    }
}

impl locking_operations for SchemaDescription {
    fn lock(&self) -> Result<bool, IpamError> {
        Err(IpamError::Unimplemented)
    }

    fn unlock(&self) -> Result<bool, IpamError> {
        Err(IpamError::Unimplemented)
    }

    fn is_locked(&self) -> Result<bool, IpamError> {
        Ok(self.locked)
    }
}

/// The text and prefix length of the root pool, and the prefix length its
/// children are cut at.
pub open spec fn spec_root_network() -> Seq<char> {
    "100.64.0.0"@
}

/// The root pool record as the literal-text constructor builds it.
pub open spec fn spec_root_initial(root: u128) -> Schema {
    Schema {
        pool: root,
        descriptions: (
            Some(
                SchemaDescription { prefix_length: 17, allocation_prefix_length: 17, locked: false },
            ),
            None,
        ),
        parent: None,
    }
}

/// The root record after its first child's sizing is folded into the second
/// description slot.
pub open spec fn spec_root_folded(root: u128) -> Schema {
    Schema {
        pool: root,
        descriptions: (
            Some(
                SchemaDescription { prefix_length: 17, allocation_prefix_length: 17, locked: false },
            ),
            Some(
                SchemaDescription { prefix_length: 20, allocation_prefix_length: 20, locked: false },
            ),
        ),
        parent: None,
    }
}

/// The pool record of the `i`-th bootstrap child.
pub open spec fn spec_bootstrap_child(root: u128, i: int) -> Schema {
    Schema {
        pool: child_block(block_of_id(root, 17), 20, i).base,
        descriptions: (
            Some(
                SchemaDescription { prefix_length: 20, allocation_prefix_length: 20, locked: false },
            ),
            None,
        ),
        parent: Some(root),
    }
}

/// What the pool store holds after a fresh bootstrap: the folded root under
/// its own identifier, then the remaining seven children of the `/17` to
/// `/20` subdivision, in ascending address order.
pub open spec fn spec_bootstrap_entries(root: u128) -> Seq<(u128, Seq<u8>)> {
    Seq::new(
        8,
        |i: int|
            if i == 0 {
                (root, spec_enc_schema(spec_root_folded(root)))
            } else {
                (spec_bootstrap_child(root, i).pool, spec_enc_schema(spec_bootstrap_child(root, i)))
            },
    )
}

/// The pool records a stored entry list decodes to, in store order.
pub open spec fn spec_decoded_pools(entries: Seq<(u128, Seq<u8>)>) -> Seq<Schema> {
    Seq::new(entries.len(), |i: int| spec_dec_schema(entries[i].1)->Some_0)
}

/// A base that forms a valid block under its parsed family also forms one
/// under magnitude-inferred reconstruction: an IPv4 base keeps its family,
/// and an IPv6 base at or below `u32::MAX` that is aligned to a prefix of
/// at most 32 bits can only be zero, which is a valid IPv4 base.
proof fn lemma_block_of_id_wf(v6: bool, base: u128, prefix_length: u8)
    requires
        (Block { v6, base, prefix_length }).wf(),
        prefix_length <= 32,
    ensures
        block_of_id(base, prefix_length).wf(),
{
    let b = block_of_id(base, prefix_length);
    lemma_pow2_pos((32 - prefix_length) as nat);
    if v6 && base <= u32::MAX as u128 {
        lemma_pow2_32();
        lemma_pow2_strictly_increases(32, (128 - prefix_length) as nat);
        lemma_small_mod(base as nat, pow2((128 - prefix_length) as nat));
        assert(base == 0);
        lemma_small_mod(0, pow2((32 - prefix_length) as nat));
    }
}

impl Schema {
    /// Seeds the pool store.  A store that already holds any record is left
    /// untouched and the call succeeds: initialisation is detected by
    /// non-emptiness.  Otherwise the root pool is created from the literal
    /// network text, its block is subdivided, the first child — whose base
    /// address always coincides with the root's — is folded into the root's
    /// second description slot (the subdivision constructor detects the
    /// coincidence just as the literal-text constructor does), and the root
    /// and the remaining children are persisted in ascending address order.
    pub fn initialize_db(db: &mut Store) -> (r: Result<(), IpamError>)
        requires
            old(db).wf(),
        ensures
            final(db).wf(),
            final(db).in_tx() == old(db).in_tx(),
            old(db).in_tx() ==> final(db).tx_base() == old(db).tx_base(),
            old(db).entries_seq().len() != 0 ==> r == Ok::<(), IpamError>(())
                && final(db).entries_seq() == old(db).entries_seq(),
            old(db).entries_seq().len() == 0 ==> match parse_cidr_spec(spec_root_network(), 17) {
                None => r == Err::<(), IpamError>(IpamError::ParseError)
                    && final(db).entries_seq() == old(db).entries_seq(),
                Some((v6, root)) => r == Ok::<(), IpamError>(())
                    && final(db).entries_seq() == spec_bootstrap_entries(root),
            },
    {
        let initialized: bool = match Schema::is_db_initialized(db) {
            Ok(v) => v,
            Err(e) => {
                return Err(e);
            },
        };
        if initialized {
            return Ok(());
        }
        let mut s: Selection<Schema> = match Schema::new_from_string(
            String::from_str("100.64.0.0"),
            17,
            None,
        ) {
            Ok(sel) => sel,
            Err(e) => {
                return Err(e);
            },
        };
        let ghost root: u128 = s.actual.pool;
        let ghost parsed_v6: bool = parse_cidr_spec(spec_root_network(), 17)->Some_0.0;
        let ghost b: Block = block_of_id(root, 17);
        proof {
            lemma_block_of_id_wf(parsed_v6, root, 17);
        }
        let proto: ProtoScope = match s.actual.to_proto_scope() {
            Ok(p) => p,
            Err(_) => {
                return Err(IpamError::PersistenceError);
            },
        };
        let kids: Vec<ProtoScope> = match proto.children(20) {
            Ok(v) => v,
            Err(_) => {
                return Err(IpamError::PersistenceError);
            },
        };
        proof {
            lemma2_to64();
            lemma_subdivision_partition(b, 20);
            lemma_pow2_pos((family_bits(b.v6) - 20) as nat);
            assert forall|j1: int, j2: int| 0 <= j1 < j2 < 8 implies spec_bootstrap_entries(root)[j1].0
                < spec_bootstrap_entries(root)[j2].0 by {
                let step = pow2((family_bits(b.v6) - 20) as nat) as int;
                assert(child_block(b, 20, j1).base as int == b.base + j1 * step);
                assert(child_block(b, 20, j2).base as int == b.base + j2 * step);
                lemma_mul_strict_inequality(j1, j2, step);
                assert(child_block(b, 20, 0).base == b.base);
            }
            assert forall|j: int| 0 <= j < 8 implies (#[trigger] child_block(b, 20, j)).base
                == spec_bootstrap_entries(root)[j].0 by {
                if j == 0 {
                    assert(child_block(b, 20, 0).first_spec() == b.first_spec());
                }
            }
        }
        let mut i: usize = 0;
        proof {
            assert(db.entries_seq() =~= spec_bootstrap_entries(root).take(0));
        }
        while i < kids.len()
            invariant
                0 <= i <= 8,
                kids@.len() == 8,
                b == block_of_id(root, 17),
                b.wf(),
                b.base == root,
                forall|j: int|
                    0 <= j < 8 ==> (#[trigger] kids@[j]).cidr == Some(child_block(b, 20, j))
                        && kids@[j].wf(),
                forall|j1: int, j2: int|
                    0 <= j1 < j2 < 8 ==> spec_bootstrap_entries(root)[j1].0
                        < spec_bootstrap_entries(root)[j2].0,
                forall|j: int|
                    0 <= j < 8 ==> (#[trigger] child_block(b, 20, j)).base
                        == spec_bootstrap_entries(root)[j].0,
                db.wf(),
                db.in_tx() == old(db).in_tx(),
                old(db).in_tx() ==> db.tx_base() == old(db).tx_base(),
                db.entries_seq() == spec_bootstrap_entries(root).take(i as int),
                s.actual == (if i == 0 {
                    spec_root_initial(root)
                } else {
                    spec_root_folded(root)
                }),
            decreases 8 - i,
        {
            let child: Selection<Schema> = match Schema::new_from_proto_scope(kids[i], Some(&s)) {
                Ok(c) => c,
                Err(_) => {
                    return Err(IpamError::PersistenceError);
                },
            };
            let ghost pre_entries: Seq<(u128, Seq<u8>)> = db.entries_seq();
            match child.operation {
                SelectionOperation::UPDATE_PARENT_DESCRIPTIONS => {
                    proof {
                        if i > 0 {
                            assert(spec_bootstrap_entries(root)[0].0 < spec_bootstrap_entries(
                                root,
                            )[i as int].0);
                            assert(false);
                        }
                    }
                    s.actual = Schema {
                        pool: s.actual.pool,
                        descriptions: (s.actual.descriptions.0, child.actual.descriptions.0),
                        parent: s.actual.parent,
                    };
                    match Schema::save(&mut s, db) {
                        Ok(_) => {},
                        Err(_) => {
                            return Err(IpamError::PersistenceError);
                        },
                    }
                    proof {
                        lemma_spec_put_append(
                            pre_entries,
                            root,
                            spec_enc_schema(spec_root_folded(root)),
                        );
                        assert(db.entries_seq() =~= spec_bootstrap_entries(root).take(i as int + 1));
                    }
                },
                SelectionOperation::DEFAULT => {
                    proof {
                        if i == 0 {
                            assert(child_block(b, 20, 0).base == root);
                            assert(false);
                        }
                        assert forall|j: int| 0 <= j < pre_entries.len() implies pre_entries[j].0
                            < child.actual.pool by {
                            assert(pre_entries[j].0 == spec_bootstrap_entries(root)[j].0);
                        }
                    }
                    let mut cc: Selection<Schema> = child;
                    match Schema::save(&mut cc, db) {
                        Ok(_) => {},
                        Err(_) => {
                            return Err(IpamError::PersistenceError);
                        },
                    }
                    proof {
                        assert(cc.actual == spec_bootstrap_child(root, i as int));
                        lemma_spec_put_append(
                            pre_entries,
                            spec_bootstrap_child(root, i as int).pool,
                            spec_enc_schema(spec_bootstrap_child(root, i as int)),
                        );
                        assert(db.entries_seq() =~= spec_bootstrap_entries(root).take(i as int + 1));
                    }
                },
            }
            i = i + 1;
        }
        proof {
            assert(spec_bootstrap_entries(root).take(8) =~= spec_bootstrap_entries(root));
        }
        Ok(())
    }
}

} // verus!
