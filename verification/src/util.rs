//! Textual address handling and the address-identifier codec.
//!
//! Parsing CIDR text is the one piece of outside work here: it goes through
//! the `cidr` crate behind a trusted wrapper whose result is named by an
//! uninterpreted function.  Everything downstream works on plain values.

use vstd::prelude::*;

use crate::block::{block_of_id, Block, IpAddress};
use crate::error::IpamError;
use crate::model::Selection;
use crate::schema::{spec_dec_schema, spec_decoded_pools, Schema};
use crate::scope::{lemma_project_puts_take, spec_project_puts, Scope};
use crate::store::Store;

verus! {

/// What the CIDR parser yields for a given text and prefix length: the
/// family and base address of the denoted block, or nothing when the text
/// is not an address or the pair is not a valid block.
pub uninterp spec fn parse_cidr_spec(s: Seq<char>, prefix_length: u8) -> Option<(bool, u128)>;

/// Relies on `cidr::IpCidr::from_str` on the text joined with the prefix
/// length: it accepts exactly a well-formed address whose host bits under
/// the prefix are zero and whose prefix length fits the family, and returns
/// the block's family, first address and length.
#[verifier::external_body]
fn parse_cidr_text(network: &str, prefix_length: u8) -> (r: Option<IpAddress>)
    ensures
        r is Some <==> parse_cidr_spec(network@, prefix_length) is Some,
        r matches Some(a) ==> parse_cidr_spec(network@, prefix_length) == Some((a.v6, a.value))
            && a.wf() && (Block { v6: a.v6, base: a.value, prefix_length }).wf(),
{
    let joined = format!("{}/{}", network, prefix_length);
    match <cidr::IpCidr as core::str::FromStr>::from_str(joined.as_str()) {
        Ok(cidr::IpCidr::V4(c)) => Some(
            IpAddress { v6: false, value: u32::from(c.first_address()) as u128 },
        ),
        Ok(cidr::IpCidr::V6(c)) => Some(IpAddress { v6: true, value: u128::from(c.first_address()) }),
        Err(_) => None,
    }
}

/// Builds the block denoted by an address text and a prefix length;
/// `ParseError` when the text is malformed, the prefix is too long for the
/// family, or host bits are set.
pub fn string_to_ip_cidr(network: String, prefix_length: u8) -> (r: Result<Block, IpamError>)
    ensures
        match parse_cidr_spec(network@, prefix_length) {
            Some((v6, base)) => r == Ok::<Block, IpamError>(Block { v6, base, prefix_length })
                && (Block { v6, base, prefix_length }).wf(),
            None => r == Err::<Block, IpamError>(IpamError::ParseError),
        },
{
    match parse_cidr_text(network.as_str(), prefix_length) {
        Some(a) => Ok(Block { v6: a.v6, base: a.value, prefix_length }),
        None => Err(IpamError::ParseError),
    }
}

/// What `string_to_u128_id` yields for a given text: the address value,
/// found by reading the text as a full-length IPv4 or IPv6 block.
pub open spec fn spec_address_id(s: Seq<char>) -> Option<u128> {
    match parse_cidr_spec(s, 32) {
        Some((v6, base)) => Some(base),
        None => match parse_cidr_spec(s, 128) {
            Some((v6, base)) => Some(base),
            None => None,
        },
    }
}

/// The identifier of a textual address: an IPv4 value widened into the low
/// 32 bits, an IPv6 value in its native width.  `ParseError` on malformed
/// text.
pub fn string_to_u128_id(network: String) -> (r: Result<u128, IpamError>)
    ensures
        match spec_address_id(network@) {
            Some(v) => r == Ok::<u128, IpamError>(v),
            None => r == Err::<u128, IpamError>(IpamError::ParseError),
        },
{
    match parse_cidr_text(network.as_str(), 32) {
        Some(a) => Ok(a.value),
        None => match parse_cidr_text(network.as_str(), 128) {
            Some(a) => Ok(a.value),
            None => Err(IpamError::ParseError),
        },
    }
}

/// The next address of the same family; `RangeOverflow` past the family's
/// last address instead of wrapping to zero.
pub fn increment_address(address: IpAddress) -> (r: Result<IpAddress, IpamError>)
    requires
        address.wf(),
    ensures
        ({
            let limit: u128 = if address.v6 {
                u128::MAX
            } else {
                u32::MAX as u128
            };
            if address.value == limit {
                r == Err::<IpAddress, IpamError>(IpamError::RangeOverflow)
            } else {
                r == Ok::<IpAddress, IpamError>(
                    IpAddress { v6: address.v6, value: (address.value + 1) as u128 },
                ) && r->Ok_0.wf()
            }
        }),
{
    let limit: u128 = if address.v6 {
        u128::MAX
    } else {
        u32::MAX as u128
    };
    if address.value == limit {
        Err(IpamError::RangeOverflow)
    } else {
        Ok(IpAddress { v6: address.v6, value: address.value + 1 })
    }
}

/// The address-identifier codec round-trips into block reconstruction: for
/// a well-formed address `A` whose family survives magnitude inference (an
/// IPv6 address above `u32::MAX`, or any IPv4 address) and any prefix
/// length `p`, the block rebuilt from `(A.value, p)` is the block built
/// directly from `A` and `p`: same family, same first address, same prefix
/// length.
pub proof fn lemma_address_id_round_trip(a: IpAddress, prefix_length: u8)
    requires
        a.wf(),
        a.v6 ==> a.value > u32::MAX as u128,
    ensures
        block_of_id(a.value, prefix_length) == (Block {
            v6: a.v6,
            base: a.value,
            prefix_length,
        }),
        block_of_id(a.value, prefix_length).first_spec() == a.value,
        block_of_id(a.value, prefix_length).prefix_length == prefix_length,
{
}

/// Mirrors every pool record of the pool store into the scope store: each
/// record is read back, projected into a scope record with both timestamps
/// set to `now`, and written under its identifier.  A stored pool value
/// that does not decode fails the whole call with `PersistenceError` before
/// anything is written; the projection and write of each record cannot
/// fail, so every record is attempted.
pub fn create_initial_scopes(scope_db: &mut Store, schema_db: &Store, now: u64) -> (r: Result<
    (),
    IpamError,
>)
    requires
        old(scope_db).wf(),
    ensures
        final(scope_db).wf(),
        final(scope_db).in_tx() == old(scope_db).in_tx(),
        old(scope_db).in_tx() ==> final(scope_db).tx_base() == old(scope_db).tx_base(),
        r is Ok <==> (forall|i: int|
            0 <= i < schema_db.entries_seq().len() ==> spec_dec_schema(
                #[trigger] schema_db.entries_seq()[i].1,
            ) is Some),
        r is Err ==> r == Err::<(), IpamError>(IpamError::PersistenceError)
            && final(scope_db).entries_seq() == old(scope_db).entries_seq(),
        r is Ok ==> final(scope_db).entries_seq() == spec_project_puts(
            old(scope_db).entries_seq(),
            spec_decoded_pools(schema_db.entries_seq()),
            now,
        ),
{
    let pools: Vec<Selection<Schema>> = match Schema::retrieve_all(schema_db) {
        Ok(v) => v,
        Err(_) => {
            return Err(IpamError::PersistenceError);
        },
    };
    let ghost decoded: Seq<Schema> = spec_decoded_pools(schema_db.entries_seq());
    let mut failed: bool = false;
    let mut i: usize = 0;
    proof {
        assert(decoded.take(0) =~= Seq::<Schema>::empty());
    }
    while i < pools.len()
        invariant
            i <= pools@.len(),
            pools@.len() == decoded.len(),
            forall|j: int| 0 <= j < decoded.len() ==> (#[trigger] pools@[j]).actual == decoded[j],
            failed == false,
            scope_db.wf(),
            scope_db.in_tx() == old(scope_db).in_tx(),
            old(scope_db).in_tx() ==> scope_db.tx_base() == old(scope_db).tx_base(),
            scope_db.entries_seq() == spec_project_puts(
                old(scope_db).entries_seq(),
                decoded.take(i as int),
                now,
            ),
        decreases pools@.len() - i,
    {
        match Scope::new_from_selection(pools[i], now) {
            Ok(mut scope_sel) => {
                match Scope::save(&mut scope_sel, scope_db) {
                    Ok(_) => {},
                    Err(_) => {
                        failed = true;
                    },
                }
            },
            Err(_) => {
                failed = true;
            },
        }
        proof {
            lemma_project_puts_take(old(scope_db).entries_seq(), decoded, now, i as int);
        }
        i = i + 1;
    }
    if failed {
        Err(IpamError::ScopeInitError)
    } else {
        proof {
            assert(decoded.take(decoded.len() as int) =~= decoded);
        }
        Ok(())
    }
}

} // verus!
