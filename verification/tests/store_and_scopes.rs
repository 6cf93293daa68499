use ipam::error::IpamError;
use ipam::model::locking_operations;
use ipam::model::{Selection, SelectionOperation};
use ipam::schema::{Schema, SchemaDescription};
use ipam::scope::Scope;
use ipam::store::Store;

fn sample_selection(pool: u128) -> Selection<Schema> {
    Selection {
        actual: Schema {
            pool,
            descriptions: (
                Some(SchemaDescription {
                    prefix_length: 20,
                    allocation_prefix_length: 20,
                    locked: false,
                }),
                None,
            ),
            parent: None,
        },
        selected_prefix_length: Some(20),
        saved: false,
        operation: SelectionOperation::DEFAULT,
    }
}

#[test]
fn put_keeps_keys_ordered_and_overwrites_equal_keys() {
    let mut st = Store::open_temp();
    st.put(20, vec![2]).unwrap();
    st.put(10, vec![1]).unwrap();
    st.put(30, vec![3]).unwrap();
    st.put(20, vec![9]).unwrap();
    assert_eq!(st.entry_count(), 3);
    assert_eq!(st.key_at(0), 10);
    assert_eq!(st.key_at(1), 20);
    assert_eq!(st.key_at(2), 30);
    assert_eq!(st.value_at(1), &vec![9u8]);
}

#[test]
fn rollback_reverts_and_commit_keeps() {
    let mut st = Store::open_temp();
    st.put(1, vec![1]).unwrap();
    st.begin_tx().unwrap();
    st.put(2, vec![2]).unwrap();
    st.roll_back_tx().unwrap();
    assert_eq!(st.entry_count(), 1);
    assert_eq!(st.key_at(0), 1);

    st.begin_tx().unwrap();
    st.put(2, vec![2]).unwrap();
    st.commit_tx().unwrap();
    assert_eq!(st.entry_count(), 2);
}

#[test]
fn transaction_misuse_is_rejected() {
    let mut st = Store::open_temp();
    assert_eq!(st.commit_tx().unwrap_err(), IpamError::TransactionStateError);
    assert_eq!(st.roll_back_tx().unwrap_err(), IpamError::TransactionStateError);
    st.begin_tx().unwrap();
    assert_eq!(st.begin_tx().unwrap_err(), IpamError::TransactionStateError);
    st.roll_back_tx().unwrap();
}

#[test]
fn save_marks_the_selection_saved() {
    let mut st = Store::open_temp();
    let mut sel = sample_selection(0x6440_0000);
    assert!(!sel.saved);
    Schema::save(&mut sel, &mut st).unwrap();
    assert!(sel.saved);
    assert_eq!(st.entry_count(), 1);
    assert_eq!(st.key_at(0), 0x6440_0000);
}

#[test]
fn retrieve_all_rejects_undecodable_values() {
    let mut st = Store::open_temp();
    st.put(7, vec![0, 1, 2]).unwrap();
    assert_eq!(Schema::retrieve_all(&st).unwrap_err(), IpamError::PersistenceError);
}

#[test]
fn retrieve_all_returns_records_in_key_order() {
    let mut st = Store::open_temp();
    let mut high = sample_selection(500);
    let mut low = sample_selection(3);
    Schema::save(&mut high, &mut st).unwrap();
    Schema::save(&mut low, &mut st).unwrap();
    let all = Schema::retrieve_all(&st).unwrap();
    assert_eq!(all.len(), 2);
    assert_eq!(all[0].actual.pool, 3);
    assert_eq!(all[1].actual.pool, 500);
    assert!(!all[0].saved);
    assert_eq!(all[0].selected_prefix_length, None);
}

#[test]
fn scope_projection_sets_fresh_timestamps_and_empty_descriptions() {
    let pool = sample_selection(0x6440_0000);
    let sel = Scope::new_from_selection(pool, 123_456).unwrap();
    assert_eq!(sel.actual.id, 0x6440_0000);
    assert_eq!(sel.actual.parent, None);
    assert_eq!(sel.actual.created, 123_456);
    assert_eq!(sel.actual.modified, 123_456);
    assert!(sel.actual.descriptions.is_empty());
    assert_eq!(sel.selected_prefix_length, Some(20));
    assert!(!sel.saved);
}

#[test]
fn scope_entry_points_report_unimplemented() {
    assert_eq!(Scope::retrieve_all().unwrap_err(), IpamError::Unimplemented);
    assert_eq!(Scope::allocate_pool(vec![]).unwrap_err(), IpamError::Unimplemented);
    assert_eq!(
        Scope::allocate_address("100.64.0.0".to_string()).unwrap_err(),
        IpamError::Unimplemented
    );
    assert_eq!(
        Scope::release_pool("100.64.0.0".to_string()).unwrap_err(),
        IpamError::Unimplemented
    );
    assert_eq!(
        Scope::release_address("100.64.0.0".to_string()).unwrap_err(),
        IpamError::Unimplemented
    );
}

#[test]
fn locking_is_an_unrealised_extension_point() {
    let sel = sample_selection(1);
    assert_eq!(sel.lock().unwrap_err(), IpamError::Unimplemented);
    assert_eq!(sel.unlock().unwrap_err(), IpamError::Unimplemented);
    assert_eq!(sel.is_locked().unwrap_err(), IpamError::Unimplemented);
    let d = SchemaDescription { prefix_length: 20, allocation_prefix_length: 20, locked: true };
    assert_eq!(d.is_locked().unwrap(), true);
    let d2 = SchemaDescription { prefix_length: 20, allocation_prefix_length: 20, locked: false };
    assert_eq!(d2.is_locked().unwrap(), false);
}
