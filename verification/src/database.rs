//! The end-to-end bootstrap: seed the pool store, then mirror it into the
//! scope store, each phase inside its own transaction.

use vstd::arithmetic::mul::lemma_mul_strict_inequality;
use vstd::arithmetic::power2::{lemma2_to64, lemma_pow2_pos, pow2};
use vstd::prelude::*;

use crate::block::{block_of_id, family_bits};
use crate::error::IpamError;
use crate::schema::{
    lemma_schema_round_trip, spec_bootstrap_child, spec_bootstrap_entries, spec_dec_schema,
    spec_decoded_pools, spec_root_folded, spec_root_network, Schema,
};
use crate::interpolate::{child_block, lemma_subdivision_partition};
use crate::scope::{
    lemma_projection_mirrors_pools, spec_enc_projected, spec_project_puts, Scope,
};
use crate::store::Store;
use crate::util::{create_initial_scopes, parse_cidr_spec};

verus! {

/// Bootstraps both stores: seeds the pool tree (a no-op when the pool store
/// is already populated), commits, then projects every pool record into the
/// scope store and commits that too.  Each phase runs in its own
/// transaction on its own store; a failing phase is rolled back before the
/// error surfaces, leaving that store as it was.  The handles are expected
/// fresh, with no transaction already open on either.
pub fn initialize_databases(schema_db: &mut Store, scope_db: &mut Store, now: u64) -> (r: Result<
    (),
    IpamError,
>)
    requires
        old(schema_db).wf(),
        old(scope_db).wf(),
        !old(schema_db).in_tx(),
        !old(scope_db).in_tx(),
    ensures
        final(schema_db).wf(),
        final(scope_db).wf(),
        !final(schema_db).in_tx(),
        !final(scope_db).in_tx(),
        old(schema_db).entries_seq().len() == 0 ==> match parse_cidr_spec(
            spec_root_network(),
            17,
        ) {
            None => r == Err::<(), IpamError>(IpamError::ParseError)
                && final(schema_db).entries_seq() == old(schema_db).entries_seq()
                && final(scope_db).entries_seq() == old(scope_db).entries_seq(),
            Some((v6, root)) => r == Ok::<(), IpamError>(()) && final(schema_db).entries_seq()
                == spec_bootstrap_entries(root) && final(scope_db).entries_seq()
                == spec_project_puts(
                old(scope_db).entries_seq(),
                spec_decoded_pools(spec_bootstrap_entries(root)),
                now,
            ),
        },
        old(schema_db).entries_seq().len() != 0 ==> final(schema_db).entries_seq() == old(
            schema_db,
        ).entries_seq() && {
            if forall|i: int|
                0 <= i < old(schema_db).entries_seq().len() ==> spec_dec_schema(
                    #[trigger] old(schema_db).entries_seq()[i].1,
                ) is Some {
                r == Ok::<(), IpamError>(()) && final(scope_db).entries_seq()
                    == spec_project_puts(
                    old(scope_db).entries_seq(),
                    spec_decoded_pools(old(schema_db).entries_seq()),
                    now,
                )
            } else {
                r == Err::<(), IpamError>(IpamError::PersistenceError)
                    && final(scope_db).entries_seq() == old(scope_db).entries_seq()
            }
        },
{
    match Schema::begin_tx(schema_db) {
        Ok(_) => {},
        Err(e) => {
            return Err(e);
        },
    }
    match Schema::initialize_db(schema_db) {
        Ok(_) => {},
        Err(e) => {
            match Schema::roll_back_tx(schema_db) {
                Ok(_) => {
                    return Err(e);
                },
                Err(_) => {
                    return Err(IpamError::TransactionStateError);
                },
            }
        },
    }
    match Schema::commit(schema_db) {
        Ok(_) => {},
        Err(_) => {
            return Err(IpamError::TransactionStateError);
        },
    }
    proof {
        if old(schema_db).entries_seq().len() == 0 {
            match parse_cidr_spec(spec_root_network(), 17) {
                Some((v6, root)) => {
                    assert forall|i: int|
                        0 <= i < schema_db.entries_seq().len() implies spec_dec_schema(
                        #[trigger] schema_db.entries_seq()[i].1,
                    ) is Some by {
                        if i == 0 {
                            lemma_schema_round_trip(spec_root_folded(root));
                        } else {
                            lemma_schema_round_trip(spec_bootstrap_child(root, i));
                        }
                    }
                },
                None => {},
            }
        }
    }
    match Scope::begin_tx(scope_db) {
        Ok(_) => {},
        Err(e) => {
            return Err(e);
        },
    }
    match create_initial_scopes(scope_db, schema_db, now) {
        Ok(_) => {},
        Err(e) => {
            match Scope::roll_back_tx(scope_db) {
                Ok(_) => {
                    return Err(e);
                },
                Err(_) => {
                    return Err(IpamError::TransactionStateError);
                },
            }
        },
    }
    match Scope::commit(scope_db) {
        Ok(_) => {},
        Err(_) => {
            return Err(IpamError::TransactionStateError);
        },
    }
    Ok(())
}

/// Mirroring a freshly bootstrapped pool store into an empty scope store
/// produces exactly one scope record per pool record, in the same order,
/// each stored under the pool's identifier and carrying that pool's
/// identifier and parent.
pub proof fn lemma_initial_scopes_mirror_bootstrap(root: u128, now: u64)
    requires
        block_of_id(root, 17).wf(),
    ensures
        ({
            let pools = spec_decoded_pools(spec_bootstrap_entries(root));
            let scopes = spec_project_puts(Seq::<(u128, Seq<u8>)>::empty(), pools, now);
            &&& pools.len() == spec_bootstrap_entries(root).len()
            &&& scopes.len() == pools.len()
            &&& (forall|i: int|
                0 <= i < pools.len() ==> (#[trigger] scopes[i]).0 == pools[i].pool && scopes[i].1
                    == spec_enc_projected(pools[i], now))
        }),
{
    let b = block_of_id(root, 17);
    let entries = spec_bootstrap_entries(root);
    let pools = spec_decoded_pools(entries);
    assert forall|i: int| 0 <= i < 8 implies #[trigger] pools[i] == (if i == 0 {
        spec_root_folded(root)
    } else {
        spec_bootstrap_child(root, i)
    }) by {
        if i == 0 {
            lemma_schema_round_trip(spec_root_folded(root));
        } else {
            lemma_schema_round_trip(spec_bootstrap_child(root, i));
        }
    }
    lemma2_to64();
    lemma_subdivision_partition(b, 20);
    lemma_pow2_pos((family_bits(b.v6) - 20) as nat);
    assert forall|i: int, j: int| 0 <= i < j < pools.len() implies pools[i].pool < pools[j].pool by {
        let step = pow2((family_bits(b.v6) - 20) as nat) as int;
        assert(child_block(b, 20, i).base as int == b.base + i * step);
        assert(child_block(b, 20, j).base as int == b.base + j * step);
        lemma_mul_strict_inequality(i, j, step);
        assert(child_block(b, 20, 0).base == b.base);
    }
    lemma_projection_mirrors_pools(pools, now);
}

} // verus!
