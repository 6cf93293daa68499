use ipam::database::initialize_databases;
use ipam::schema::Schema;
use ipam::scope::Scope;
use ipam::util::create_initial_scopes;

const ROOT_ID: u128 = 0x6440_0000;
const STEP: u128 = 4096; // one /20 block of addresses

#[test]
fn db_is_not_initialized() {
    let dao = Schema::dao().unwrap();
    assert_eq!(Schema::is_db_initialized(&dao).unwrap(), false);
}

#[test]
fn db_is_initialized() {
    let mut dao = Schema::dao().unwrap();
    Schema::begin_tx(&mut dao).unwrap();
    Schema::initialize_db(&mut dao).unwrap();
    Schema::commit(&mut dao).unwrap();
    assert_eq!(Schema::is_db_initialized(&mut dao).unwrap(), true);
}

#[test]
fn bootstrap_seeds_eight_pools() {
    let mut dao = Schema::dao().unwrap();
    Schema::begin_tx(&mut dao).unwrap();
    Schema::initialize_db(&mut dao).unwrap();
    Schema::commit(&mut dao).unwrap();

    assert_eq!(dao.entry_count(), 8);
    for i in 0..8usize {
        assert_eq!(dao.key_at(i), ROOT_ID + (i as u128) * STEP);
    }

    let records = Schema::retrieve_all(&dao).unwrap();
    assert_eq!(records.len(), 8);

    let root = &records[0].actual;
    assert_eq!(root.pool, ROOT_ID);
    assert_eq!(root.parent, None);
    let own = root.descriptions.0.unwrap();
    assert_eq!(own.prefix_length, 17);
    assert_eq!(own.allocation_prefix_length, 17);
    let folded = root.descriptions.1.unwrap();
    assert_eq!(folded.prefix_length, 20);
    assert_eq!(folded.allocation_prefix_length, 20);

    for (i, rec) in records.iter().enumerate().skip(1) {
        assert_eq!(rec.actual.pool, ROOT_ID + (i as u128) * STEP);
        assert_eq!(rec.actual.parent, Some(ROOT_ID));
        let d = rec.actual.descriptions.0.unwrap();
        assert_eq!(d.prefix_length, 20);
        assert_eq!(rec.actual.descriptions.1, None);
    }
}

#[test]
fn bootstrap_is_idempotent() {
    let mut dao = Schema::dao().unwrap();
    Schema::begin_tx(&mut dao).unwrap();
    Schema::initialize_db(&mut dao).unwrap();
    Schema::commit(&mut dao).unwrap();

    let before: Vec<(u128, Vec<u8>)> =
        (0..dao.entry_count()).map(|i| (dao.key_at(i), dao.value_at(i).clone())).collect();

    // the second run sees a non-empty store and must change nothing
    Schema::begin_tx(&mut dao).unwrap();
    Schema::initialize_db(&mut dao).unwrap();
    Schema::commit(&mut dao).unwrap();

    assert_eq!(dao.entry_count(), before.len());
    for (i, (k, v)) in before.iter().enumerate() {
        assert_eq!(dao.key_at(i), *k);
        assert_eq!(dao.value_at(i), v);
    }
}

#[test]
fn can_create_initial_scopes() {
    let mut schema_dao = Schema::dao().unwrap();
    let mut scope_dao = Scope::dao().unwrap();
    initialize_databases(&mut schema_dao, &mut scope_dao, 1_700_000_000).unwrap();

    assert_eq!(schema_dao.entry_count(), 8);
    assert_eq!(scope_dao.entry_count(), 8);
    for i in 0..8usize {
        assert_eq!(scope_dao.key_at(i), schema_dao.key_at(i));
    }
}

#[test]
fn scopes_mirror_pools_one_to_one() {
    let mut schema_dao = Schema::dao().unwrap();
    Schema::begin_tx(&mut schema_dao).unwrap();
    Schema::initialize_db(&mut schema_dao).unwrap();
    Schema::commit(&mut schema_dao).unwrap();

    let mut scope_dao = Scope::dao().unwrap();
    create_initial_scopes(&mut scope_dao, &schema_dao, 42).unwrap();

    let pools = Schema::retrieve_all(&schema_dao).unwrap();
    assert_eq!(scope_dao.entry_count(), pools.len());
    for (i, pool) in pools.iter().enumerate() {
        assert_eq!(scope_dao.key_at(i), pool.actual.pool);
        // the stored bytes are the projection of exactly this pool record
        let projected = ipam::scope::Scope::new_from_selection(*pool, 42).unwrap();
        assert_eq!(scope_dao.value_at(i), &projected.actual.encode_record());
        assert_eq!(projected.actual.id, pool.actual.pool);
        assert_eq!(projected.actual.parent, pool.actual.parent);
    }
}

#[test]
fn create_initial_scopes_on_empty_pool_store() {
    let schema_dao = Schema::dao().unwrap();
    let mut scope_dao = Scope::dao().unwrap();
    create_initial_scopes(&mut scope_dao, &schema_dao, 7).unwrap();
    assert_eq!(scope_dao.entry_count(), 0);
}

#[test]
fn undecodable_pool_record_fails_scope_creation() {
    let mut schema_dao = Schema::dao().unwrap();
    schema_dao.put(5, vec![1, 2, 3]).unwrap();
    let mut scope_dao = Scope::dao().unwrap();
    assert_eq!(
        create_initial_scopes(&mut scope_dao, &schema_dao, 7).unwrap_err(),
        ipam::error::IpamError::PersistenceError
    );
    assert_eq!(scope_dao.entry_count(), 0);
}

#[test]
fn second_full_bootstrap_leaves_pools_alone() {
    let mut schema_dao = Schema::dao().unwrap();
    let mut scope_dao = Scope::dao().unwrap();
    initialize_databases(&mut schema_dao, &mut scope_dao, 10).unwrap();
    let keys: Vec<u128> = (0..schema_dao.entry_count()).map(|i| schema_dao.key_at(i)).collect();
    initialize_databases(&mut schema_dao, &mut scope_dao, 20).unwrap();
    let keys_after: Vec<u128> =
        (0..schema_dao.entry_count()).map(|i| schema_dao.key_at(i)).collect();
    assert_eq!(keys, keys_after);
}

#[test]
fn store_rejects_misused_transactions() {
    let mut dao = Schema::dao().unwrap();
    assert_eq!(
        Schema::commit(&mut dao).unwrap_err(),
        ipam::error::IpamError::TransactionStateError
    );
    assert_eq!(
        Schema::roll_back_tx(&mut dao).unwrap_err(),
        ipam::error::IpamError::TransactionStateError
    );
    Schema::begin_tx(&mut dao).unwrap();
    assert_eq!(
        Schema::begin_tx(&mut dao).unwrap_err(),
        ipam::error::IpamError::TransactionStateError
    );
    Schema::commit(&mut dao).unwrap();
}

#[test]
fn rollback_restores_the_pool_store() {
    let mut dao = Schema::dao().unwrap();
    Schema::begin_tx(&mut dao).unwrap();
    Schema::initialize_db(&mut dao).unwrap();
    assert_eq!(dao.entry_count(), 8);
    Schema::roll_back_tx(&mut dao).unwrap();
    assert_eq!(dao.entry_count(), 0);
    assert_eq!(Schema::is_db_initialized(&dao).unwrap(), false);
}
