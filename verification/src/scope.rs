//! The persisted working tree of allocatable scopes, derived one-to-one
//! from pool records at bootstrap time.

use vstd::prelude::*;
use vstd::string::StrSliceExecFns;

use crate::encoding::{spec_be_bytes, write_be_u128};
use crate::error::IpamError;
use crate::model::{Selection, SelectionOperation};
use crate::schema::{spec_dec_schema, spec_enc_opt_id, Schema};
use crate::store::{spec_put, Store};

verus! {

/// Allocation metadata of one scope entry.  The bootstrap path never writes
/// these; the fields are carried for the allocation features layered on top.
#[derive(Clone, Debug, PartialEq, Eq)]
pub struct ScopeDescription {
    pub prefix_length: u8,
    pub locked: bool,
    pub allocated: bool,
    pub tags: Vec<String>,
}

/// One scope record: the mirror of a pool record, with creation and
/// modification times and a list of allocation descriptions that starts
/// empty.
#[derive(Clone, Debug, PartialEq, Eq)]
pub struct Scope {
    pub id: u128,
    pub parent: Option<u128>,
    pub modified: u64,
    pub created: u64,
    pub descriptions: Vec<ScopeDescription>,
}

/// A 32-bit value as four big-endian bytes.
pub open spec fn spec_enc_u32be(v: u32) -> Seq<u8> {
    seq![(v >> 24) as u8, (v >> 16) as u8, (v >> 8) as u8, v as u8]
}

/// A character as the four big-endian bytes of its code point.
pub open spec fn spec_enc_char(c: char) -> Seq<u8> {
    spec_enc_u32be(c as u32)
}

/// A character sequence, character by character.
pub open spec fn spec_enc_chars(s: Seq<char>) -> Seq<u8>
    decreases s.len(),
{
    if s.len() == 0 {
        Seq::empty()
    } else {
        spec_enc_char(s[0]) + spec_enc_chars(s.drop_first())
    }
}

/// A tag: its character count, then its characters.
pub open spec fn spec_enc_tag(s: Seq<char>) -> Seq<u8> {
    spec_be_bytes(s.len() as u128) + spec_enc_chars(s)
}

/// A tag list, tag by tag.
pub open spec fn spec_enc_tags(ts: Seq<Seq<char>>) -> Seq<u8>
    decreases ts.len(),
{
    if ts.len() == 0 {
        Seq::empty()
    } else {
        spec_enc_tag(ts[0]) + spec_enc_tags(ts.drop_first())
    }
}

/// One scope description: three flag bytes, the tag count, the tags.
pub open spec fn spec_enc_scope_desc(d: ScopeDescription) -> Seq<u8> {
    seq![
        d.prefix_length,
        if d.locked {
            1u8
        } else {
            0u8
        },
        if d.allocated {
            1u8
        } else {
            0u8
        },
    ] + spec_be_bytes(d.tags@.len() as u128) + spec_enc_tags(
        d.tags@.map_values(|t: String| t@),
    )
}

/// A description list, entry by entry.
pub open spec fn spec_enc_scope_descs(ds: Seq<ScopeDescription>) -> Seq<u8>
    decreases ds.len(),
{
    if ds.len() == 0 {
        Seq::empty()
    } else {
        spec_enc_scope_desc(ds[0]) + spec_enc_scope_descs(ds.drop_first())
    }
}

/// The stored bytes of a scope record: identifier, parent, modification and
/// creation times, then the description count and the descriptions.
pub open spec fn spec_enc_scope(s: Scope) -> Seq<u8> {
    spec_be_bytes(s.id) + spec_enc_opt_id(s.parent) + spec_be_bytes(s.modified as u128)
        + spec_be_bytes(s.created as u128) + spec_be_bytes(s.descriptions@.len() as u128)
        + spec_enc_scope_descs(s.descriptions@)
}

/// The stored bytes of the scope that mirrors a pool record at time `now`:
/// same identifier, same parent, fresh timestamps, no descriptions yet.
pub open spec fn spec_enc_projected(pool: Schema, now: u64) -> Seq<u8> {
    spec_be_bytes(pool.pool) + spec_enc_opt_id(pool.parent) + spec_be_bytes(now as u128)
        + spec_be_bytes(now as u128) + spec_be_bytes(0u128) + Seq::<u8>::empty()
}

/// Appends the encoding of one tag.
fn write_tag(dst: &mut Vec<u8>, t: &String)
    ensures
        final(dst)@ == old(dst)@ + spec_enc_tag(t@),
{
    let n: usize = t.as_str().unicode_len();
    write_be_u128(dst, n as u128);
    let ghost chars: Seq<char> = t@;
    let mut i: usize = 0;
    while i < n
        invariant
            i <= n,
            n == chars.len(),
            chars == t@,
            dst@ == old(dst)@ + spec_be_bytes(chars.len() as u128) + spec_enc_chars(
                chars.take(i as int),
            ),
        decreases n - i,
    {
        let c: char = t.as_str().get_char(i);
        let v: u32 = c as u32;
        dst.push((v >> 24) as u8);
        dst.push((v >> 16) as u8);
        dst.push((v >> 8) as u8);
        dst.push(v as u8);
        proof {
            lemma_enc_chars_take(chars, i as int);
            assert(dst@ =~= old(dst)@ + spec_be_bytes(chars.len() as u128) + spec_enc_chars(
                chars.take(i + 1),
            ));
        }
        i = i + 1;
    }
    proof {
        assert(chars.take(n as int) =~= chars);
    }
}

/// Encoding one more character extends the encoding by that character's
/// bytes.
proof fn lemma_enc_chars_take(s: Seq<char>, i: int)
    requires
        0 <= i < s.len(),
    ensures
        spec_enc_chars(s.take(i + 1)) =~= spec_enc_chars(s.take(i)) + spec_enc_char(s[i]),
    decreases i,
{
    if i == 0 {
        assert(s.take(1).drop_first() =~= Seq::<char>::empty());
        assert(s.take(1)[0] == s[0]);
        assert(spec_enc_chars(s.take(0)) =~= Seq::<u8>::empty());
        assert(spec_enc_chars(s.take(1)) == spec_enc_char(s.take(1)[0]) + spec_enc_chars(
            s.take(1).drop_first(),
        ));
    } else {
        lemma_enc_chars_take(s.drop_first(), i - 1);
        assert(s.take(i + 1).drop_first() =~= s.drop_first().take(i));
        assert(s.take(i).drop_first() =~= s.drop_first().take(i - 1));
        assert(s.take(i + 1)[0] == s[0]);
        assert(s.take(i)[0] == s[0]);
        assert(spec_enc_chars(s.take(i + 1)) =~= spec_enc_char(s[0]) + spec_enc_chars(
            s.drop_first().take(i),
        ));
        assert(spec_enc_chars(s.take(i)) =~= spec_enc_char(s[0]) + spec_enc_chars(
            s.drop_first().take(i - 1),
        ));
    }
}

/// Encoding one more tag extends the encoding by that tag's bytes.
proof fn lemma_enc_tags_take(ts: Seq<Seq<char>>, i: int)
    requires
        0 <= i < ts.len(),
    ensures
        spec_enc_tags(ts.take(i + 1)) =~= spec_enc_tags(ts.take(i)) + spec_enc_tag(ts[i]),
    decreases i,
{
    if i == 0 {
        assert(ts.take(1).drop_first() =~= Seq::<Seq<char>>::empty());
        assert(ts.take(1)[0] == ts[0]);
        assert(spec_enc_tags(ts.take(0)) =~= Seq::<u8>::empty());
        assert(spec_enc_tags(ts.take(1)) == spec_enc_tag(ts.take(1)[0]) + spec_enc_tags(
            ts.take(1).drop_first(),
        ));
    } else {
        lemma_enc_tags_take(ts.drop_first(), i - 1);
        assert(ts.take(i + 1).drop_first() =~= ts.drop_first().take(i));
        assert(ts.take(i).drop_first() =~= ts.drop_first().take(i - 1));
        assert(ts.take(i + 1)[0] == ts[0]);
        assert(ts.take(i)[0] == ts[0]);
        assert(spec_enc_tags(ts.take(i + 1)) =~= spec_enc_tag(ts[0]) + spec_enc_tags(
            ts.drop_first().take(i),
        ));
        assert(spec_enc_tags(ts.take(i)) =~= spec_enc_tag(ts[0]) + spec_enc_tags(
            ts.drop_first().take(i - 1),
        ));
    }
}

/// Encoding one more description extends the encoding by its bytes.
proof fn lemma_enc_scope_descs_take(ds: Seq<ScopeDescription>, i: int)
    requires
        0 <= i < ds.len(),
    ensures
        spec_enc_scope_descs(ds.take(i + 1)) =~= spec_enc_scope_descs(ds.take(i))
            + spec_enc_scope_desc(ds[i]),
    decreases i,
{
    if i == 0 {
        assert(ds.take(1).drop_first() =~= Seq::<ScopeDescription>::empty());
        assert(ds.take(1)[0] == ds[0]);
        assert(spec_enc_scope_descs(ds.take(0)) =~= Seq::<u8>::empty());
        assert(spec_enc_scope_descs(ds.take(1)) == spec_enc_scope_desc(ds.take(1)[0])
            + spec_enc_scope_descs(ds.take(1).drop_first()));
    } else {
        lemma_enc_scope_descs_take(ds.drop_first(), i - 1);
        assert(ds.take(i + 1).drop_first() =~= ds.drop_first().take(i));
        assert(ds.take(i).drop_first() =~= ds.drop_first().take(i - 1));
        assert(ds.take(i + 1)[0] == ds[0]);
        assert(ds.take(i)[0] == ds[0]);
        assert(spec_enc_scope_descs(ds.take(i + 1)) =~= spec_enc_scope_desc(ds[0])
            + spec_enc_scope_descs(ds.drop_first().take(i)));
        assert(spec_enc_scope_descs(ds.take(i)) =~= spec_enc_scope_desc(ds[0])
            + spec_enc_scope_descs(ds.drop_first().take(i - 1)));
    }
}

/// Appends the encoding of one scope description.
fn write_scope_desc(dst: &mut Vec<u8>, d: &ScopeDescription)
    ensures
        final(dst)@ == old(dst)@ + spec_enc_scope_desc(*d),
{
    dst.push(d.prefix_length);
    dst.push(
        if d.locked {
            1u8
        } else {
            0u8
        },
    );
    dst.push(
        if d.allocated {
            1u8
        } else {
            0u8
        },
    );
    write_be_u128(dst, d.tags.len() as u128);
    let ghost tagviews: Seq<Seq<char>> = d.tags@.map_values(|t: String| t@);
    let ghost head: Seq<u8> = old(dst)@ + seq![
        d.prefix_length,
        if d.locked {
            1u8
        } else {
            0u8
        },
        if d.allocated {
            1u8
        } else {
            0u8
        },
    ] + spec_be_bytes(d.tags@.len() as u128);
    let mut i: usize = 0;
    proof {
        assert(dst@ =~= head + spec_enc_tags(tagviews.take(0)));
    }
    while i < d.tags.len()
        invariant
            i <= d.tags@.len(),
            tagviews == d.tags@.map_values(|t: String| t@),
            dst@ == head + spec_enc_tags(tagviews.take(i as int)),
        decreases d.tags@.len() - i,
    {
        write_tag(dst, &d.tags[i]);
        proof {
            lemma_enc_tags_take(tagviews, i as int);
            assert(dst@ =~= head + spec_enc_tags(tagviews.take(i + 1)));
        }
        i = i + 1;
    }
    proof {
        assert(tagviews.take(tagviews.len() as int) =~= tagviews);
        assert(dst@ =~= old(dst)@ + spec_enc_scope_desc(*d));
    }
}

impl Scope {
    /// The stored byte form of this record.
    pub fn encode_record(&self) -> (r: Vec<u8>)
        ensures
            r@ == spec_enc_scope(*self),
    {
        let mut out: Vec<u8> = Vec::new();
        write_be_u128(&mut out, self.id);
        crate::schema::write_opt_id(&mut out, &self.parent);
        write_be_u128(&mut out, self.modified as u128);
        write_be_u128(&mut out, self.created as u128);
        write_be_u128(&mut out, self.descriptions.len() as u128);
        let ghost head: Seq<u8> = out@;
        let ghost descs: Seq<ScopeDescription> = self.descriptions@;
        let mut i: usize = 0;
        proof {
            assert(out@ =~= head + spec_enc_scope_descs(descs.take(0)));
        }
        while i < self.descriptions.len()
            invariant
                i <= descs.len(),
                descs == self.descriptions@,
                out@ == head + spec_enc_scope_descs(descs.take(i as int)),
            decreases descs.len() - i,
        {
            write_scope_desc(&mut out, &self.descriptions[i]);
            proof {
                lemma_enc_scope_descs_take(descs, i as int);
                assert(out@ =~= head + spec_enc_scope_descs(descs.take(i + 1)));
            }
            i = i + 1;
        }
        proof {
            assert(descs.take(descs.len() as int) =~= descs);
            assert(out@ =~= spec_enc_scope(*self));
        }
        out
    }
}

/// What mirroring a list of pool records into a scope store leaves behind:
/// the store after one projected write per record, in list order.
pub open spec fn spec_project_puts(
    base: Seq<(u128, Seq<u8>)>,
    pools: Seq<Schema>,
    now: u64,
) -> Seq<(u128, Seq<u8>)>
    decreases pools.len(),
{
    if pools.len() == 0 {
        base
    } else {
        spec_project_puts(
            spec_put(base, pools[0].pool, spec_enc_projected(pools[0], now)),
            pools.drop_first(),
            now,
        )
    }
}

/// One scope entry per pool record: the pool's identifier as key, the
/// projected record's bytes as value.
pub open spec fn spec_projected_entries(pools: Seq<Schema>, now: u64) -> Seq<(u128, Seq<u8>)> {
    Seq::new(pools.len(), |i: int| (pools[i].pool, spec_enc_projected(pools[i], now)))
}

/// Projecting one more pool record stores one more projected entry.
pub(crate) proof fn lemma_project_puts_take(
    base: Seq<(u128, Seq<u8>)>,
    pools: Seq<Schema>,
    now: u64,
    i: int,
)
    requires
        0 <= i < pools.len(),
    ensures
        spec_project_puts(base, pools.take(i + 1), now) == spec_put(
            spec_project_puts(base, pools.take(i), now),
            pools[i].pool,
            spec_enc_projected(pools[i], now),
        ),
    decreases i,
{
    if i == 0 {
        assert(pools.take(0) =~= Seq::<Schema>::empty());
        assert(pools.take(1).drop_first() =~= Seq::<Schema>::empty());
        assert(pools.take(1)[0] == pools[0]);
        assert(spec_project_puts(base, pools.take(0), now) == base);
        assert(spec_project_puts(base, pools.take(1), now) == spec_project_puts(
            spec_put(base, pools[0].pool, spec_enc_projected(pools[0], now)),
            pools.take(1).drop_first(),
            now,
        ));
    } else {
        let base2 = spec_put(base, pools[0].pool, spec_enc_projected(pools[0], now));
        lemma_project_puts_take(base2, pools.drop_first(), now, i - 1);
        assert(pools.take(i + 1).drop_first() =~= pools.drop_first().take(i));
        assert(pools.take(i).drop_first() =~= pools.drop_first().take(i - 1));
        assert(pools.take(i + 1)[0] == pools[0]);
        assert(pools.take(i)[0] == pools[0]);
        assert(pools.drop_first()[i - 1] == pools[i]);
        assert(spec_project_puts(base, pools.take(i + 1), now) == spec_project_puts(
            base2,
            pools.drop_first().take(i),
            now,
        ));
        assert(spec_project_puts(base, pools.take(i), now) == spec_project_puts(
            base2,
            pools.drop_first().take(i - 1),
            now,
        ));
    }
}

/// Mirroring pool records with strictly ascending identifiers into an empty
/// scope store produces exactly one scope entry per pool record, in the
/// same order, each keyed by the pool's identifier and holding the
/// projection of that record — same identifier, same parent, fresh
/// timestamps, no descriptions.
pub proof fn lemma_projection_mirrors_pools(pools: Seq<Schema>, now: u64)
    requires
        forall|i: int, j: int| 0 <= i < j < pools.len() ==> pools[i].pool < pools[j].pool,
    ensures
        spec_project_puts(Seq::empty(), pools, now) == spec_projected_entries(pools, now),
        spec_project_puts(Seq::empty(), pools, now).len() == pools.len(),
        forall|i: int|
            0 <= i < pools.len() ==> spec_project_puts(Seq::empty(), pools, now)[i] == (
            pools[i].pool,
            spec_enc_projected(pools[i], now),
            ),
{
    lemma_projection_appends(Seq::empty(), pools, now);
    assert(Seq::<(u128, Seq<u8>)>::empty() + spec_projected_entries(pools, now)
        =~= spec_projected_entries(pools, now));
}

/// With every stored key below every pool identifier and the identifiers
/// ascending, each projected write appends.
proof fn lemma_projection_appends(base: Seq<(u128, Seq<u8>)>, pools: Seq<Schema>, now: u64)
    requires
        forall|i: int, j: int| 0 <= i < j < pools.len() ==> pools[i].pool < pools[j].pool,
        forall|i: int, j: int|
            0 <= i < base.len() && 0 <= j < pools.len() ==> base[i].0 < pools[j].pool,
    ensures
        spec_project_puts(base, pools, now) == base + spec_projected_entries(pools, now),
    decreases pools.len(),
{
    if pools.len() == 0 {
        assert(base + spec_projected_entries(pools, now) =~= base);
    } else {
        let entry = (pools[0].pool, spec_enc_projected(pools[0], now));
        crate::store::lemma_spec_put_append(base, pools[0].pool, spec_enc_projected(pools[0], now));
        let base2 = spec_put(base, pools[0].pool, spec_enc_projected(pools[0], now));
        assert(base2 =~= base.push(entry));
        lemma_projection_appends(base2, pools.drop_first(), now);
        assert(base2 + spec_projected_entries(pools.drop_first(), now) =~= base
            + spec_projected_entries(pools, now));
    }
}

impl Scope {
    /// Projects a pool selection into a scope selection: same identifier,
    /// same parent, both timestamps set to `now`, and an empty description
    /// list.
    pub fn new_from_selection(network: Selection<Schema>, now: u64) -> (r: Result<
        Selection<Scope>,
        IpamError,
    >)
        ensures
            r matches Ok(sel) && sel.actual.id == network.actual.pool && sel.actual.parent
                == network.actual.parent && sel.actual.modified == now && sel.actual.created == now
                && sel.actual.descriptions@.len() == 0 && sel.selected_prefix_length
                == network.selected_prefix_length && sel.saved == false && sel.operation
                == SelectionOperation::DEFAULT && spec_enc_scope(sel.actual) == spec_enc_projected(
                network.actual,
                now,
            ),
    {
        let sel = Selection {
            actual: Scope {
                id: network.actual.pool,
                parent: network.actual.parent,
                modified: now,
                created: now,
                descriptions: Vec::new(),
            },
            selected_prefix_length: network.selected_prefix_length,
            saved: false,
            operation: SelectionOperation::DEFAULT,
        };
        proof {
            assert(spec_enc_scope_descs(sel.actual.descriptions@) =~= Seq::<u8>::empty());
            assert(spec_enc_scope(sel.actual) =~= spec_enc_projected(network.actual, now));
        }
        Ok(sel)
    }

    /// Builds a scope record from a subdivision result.
    pub fn new_from_proto_scope(
        network: crate::interpolate::ProtoScope,
        parent: Option<&Selection<Scope>>,
        now: u64,
    ) -> (r: Result<Selection<Scope>, IpamError>)
        ensures
            network.cidr is None ==> r == Err::<Selection<Scope>, IpamError>(IpamError::ParseError),
            network.cidr matches Some(b) ==> (r matches Ok(sel) && sel.actual.id == b.base
                && sel.actual.parent == (match parent {
                Some(p) => Some(p.actual.id),
                None => None::<u128>,
            }) && sel.actual.modified == now && sel.actual.created == now
                && sel.actual.descriptions@.len() == 0 && sel.selected_prefix_length == Some(
                b.prefix_length,
            ) && sel.saved == false && sel.operation == SelectionOperation::DEFAULT),
    {
        network.scope_from_proto_scope(parent, now)
    }

    /// A fresh, empty in-memory store.
    pub fn dao() -> (r: Result<Store, IpamError>)
        ensures
            r matches Ok(st) && st.wf() && !st.in_tx() && st.entries_seq().len() == 0,
    {
        Ok(Store::open_temp())
    }

    /// Opens a transaction on the scope store.
    pub fn begin_tx(db: &mut Store) -> (r: Result<(), IpamError>)
        requires
            old(db).wf(),
        ensures
            final(db).wf(),
            final(db).entries_seq() == old(db).entries_seq(),
            old(db).in_tx() ==> r == Err::<(), IpamError>(IpamError::TransactionStateError)
                && *final(db) == *old(db),
            !old(db).in_tx() ==> r == Ok::<(), IpamError>(()) && final(db).in_tx()
                && final(db).tx_base() == old(db).entries_seq(),
    {
        db.begin_tx()
    }

    /// Rolls the open transaction back.
    pub fn roll_back_tx(db: &mut Store) -> (r: Result<(), IpamError>)
        requires
            old(db).wf(),
        ensures
            final(db).wf(),
            !final(db).in_tx(),
            old(db).in_tx() ==> r == Ok::<(), IpamError>(())
                && final(db).entries_seq() == old(db).tx_base(),
            !old(db).in_tx() ==> r == Err::<(), IpamError>(IpamError::TransactionStateError)
                && *final(db) == *old(db),
    {
        db.roll_back_tx()
    }

    /// Commits the open transaction.
    pub fn commit(db: &mut Store) -> (r: Result<(), IpamError>)
        requires
            old(db).wf(),
        ensures
            final(db).wf(),
            final(db).entries_seq() == old(db).entries_seq(),
            !final(db).in_tx(),
            old(db).in_tx() ==> r == Ok::<(), IpamError>(()),
            !old(db).in_tx() ==> r == Err::<(), IpamError>(IpamError::TransactionStateError)
                && *final(db) == *old(db),
    {
        db.commit_tx()
    }

    /// Whether the scope store already holds any record.
    pub fn is_db_initialized(db: &Store) -> (r: Result<bool, IpamError>)
        ensures
            r matches Ok(v) && (v <==> db.entries_seq().len() != 0),
    {
        Ok(!db.is_empty())
    }

    /// Serialises a scope selection and writes it under its identifier;
    /// `saved` flips to true.
    pub fn save(s: &mut Selection<Scope>, db: &mut Store) -> (r: Result<(), IpamError>)
        requires
            old(db).wf(),
        ensures
            r is Ok,
            final(db).wf(),
            final(db).in_tx() == old(db).in_tx(),
            old(db).in_tx() ==> final(db).tx_base() == old(db).tx_base(),
            final(db).entries_seq() == spec_put(
                old(db).entries_seq(),
                old(s).actual.id,
                spec_enc_scope(old(s).actual),
            ),
            final(s).actual == old(s).actual,
            final(s).saved == true,
            final(s).selected_prefix_length == old(s).selected_prefix_length,
            final(s).operation == old(s).operation,
    {
        s.saved = true;
        let bytes: Vec<u8> = s.actual.encode_record();
        let key: u128 = s.actual.id;
        db.put(key, bytes)
    }

    /// Mirrors every pool record into the scope store.
    pub fn initialize_db(scope_db: &mut Store, schema_db: &Store, now: u64) -> (r: Result<
        (),
        IpamError,
    >)
        requires
            old(scope_db).wf(),
        ensures
            final(scope_db).wf(),
            final(scope_db).in_tx() == old(scope_db).in_tx(),
            old(scope_db).in_tx() ==> final(scope_db).tx_base() == old(scope_db).tx_base(),
            r is Ok <==> (forall|i: int|
                0 <= i < schema_db.entries_seq().len() ==> spec_dec_schema(
                    #[trigger] schema_db.entries_seq()[i].1,
                ) is Some),
            r is Err ==> r == Err::<(), IpamError>(IpamError::PersistenceError)
                && final(scope_db).entries_seq() == old(scope_db).entries_seq(),
            r is Ok ==> final(scope_db).entries_seq() == spec_project_puts(
                old(scope_db).entries_seq(),
                crate::schema::spec_decoded_pools(schema_db.entries_seq()),
                now,
            ),
    {
        crate::util::create_initial_scopes(scope_db, schema_db, now)
    }

    /// Reading scope records back is not part of the bootstrap path.
    pub fn retrieve_all() -> (r: Result<Vec<Selection<Scope>>, IpamError>)
        ensures
            r == Err::<Vec<Selection<Scope>>, IpamError>(IpamError::Unimplemented),
    {
        Err(IpamError::Unimplemented)
    }

    /// Selects a pool by tags: an extension point, not yet realised.
    pub fn allocate_pool(_tags: Vec<String>) -> (r: Result<Selection<Scope>, IpamError>)
        ensures
            r == Err::<Selection<Scope>, IpamError>(IpamError::Unimplemented),
    {
        Err(IpamError::Unimplemented)
    }

    /// Allocates one address: an extension point, not yet realised.
    pub fn allocate_address(_network: String) -> (r: Result<Selection<Scope>, IpamError>)
        ensures
            r == Err::<Selection<Scope>, IpamError>(IpamError::Unimplemented),
    {
        Err(IpamError::Unimplemented)
    }

    /// Releases a pool: an extension point, not yet realised.
    pub fn release_pool(_network: String) -> (r: Result<(), IpamError>)
        ensures
            r == Err::<(), IpamError>(IpamError::Unimplemented),
    {
        Err(IpamError::Unimplemented)
    }

    /// Releases one address: an extension point, not yet realised.
    pub fn release_address(_network: String) -> (r: Result<(), IpamError>)
        ensures
            r == Err::<(), IpamError>(IpamError::Unimplemented),
    {
        Err(IpamError::Unimplemented)
    }

    /// Looks a record up by identifier: not yet realised.
    pub fn exists_in_database(_id: u128) -> (r: Result<bool, IpamError>)
        ensures
            r == Err::<bool, IpamError>(IpamError::Unimplemented),
    {
        Err(IpamError::Unimplemented)
    }
}

} // verus!
