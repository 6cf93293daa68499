use ipam::error::IpamError;
use ipam::interpolate::ProtoScope;
use ipam::model::SelectionOperation;
use ipam::schema::{Schema, SchemaDescription};

#[test]
fn string_to_ip_cidr() {
    let ps = Schema::new_from_string("100.64.0.0".to_string(), 17, None)
        .unwrap()
        .actual
        .to_proto_scope()
        .unwrap();
    let v: Vec<ProtoScope> = ps.children(20).unwrap();
    assert_eq!(v.len(), 8);
    assert_eq!(
        v.last().unwrap().cidr.unwrap().last_address(),
        ps.cidr.unwrap().last_address()
    );
    assert_eq!(v.last().unwrap().cidr.unwrap().prefix_length, 20);
}

#[test]
fn new_from_string_builds_the_root_shape() {
    let sel = Schema::new_from_string("100.64.0.0".to_string(), 17, None).unwrap();
    assert_eq!(sel.actual.pool, 0x6440_0000u128);
    assert_eq!(
        sel.actual.descriptions.0,
        Some(SchemaDescription { prefix_length: 17, allocation_prefix_length: 17, locked: false })
    );
    assert_eq!(sel.actual.descriptions.1, None);
    assert_eq!(sel.actual.parent, None);
    assert_eq!(sel.selected_prefix_length, Some(17));
    assert!(!sel.saved);
    assert_eq!(sel.operation, SelectionOperation::DEFAULT);
}

#[test]
fn new_from_string_detects_base_coincidence() {
    let parent = Schema::new_from_string("100.64.0.0".to_string(), 17, None).unwrap();
    let same_base = Schema::new_from_string("100.64.0.0".to_string(), 20, Some(&parent)).unwrap();
    assert_eq!(same_base.operation, SelectionOperation::UPDATE_PARENT_DESCRIPTIONS);
    assert_eq!(same_base.actual.parent, Some(parent.actual.pool));
    let other = Schema::new_from_string("100.64.16.0".to_string(), 20, Some(&parent)).unwrap();
    assert_eq!(other.operation, SelectionOperation::DEFAULT);
}

#[test]
fn new_from_string_rejects_bad_text() {
    assert_eq!(
        Schema::new_from_string("not an address".to_string(), 17, None).unwrap_err(),
        IpamError::ParseError
    );
    // host bits under the prefix must be zero
    assert_eq!(
        Schema::new_from_string("100.64.0.1".to_string(), 17, None).unwrap_err(),
        IpamError::ParseError
    );
    // prefix length beyond the family width
    assert_eq!(
        Schema::new_from_string("100.64.0.0".to_string(), 33, None).unwrap_err(),
        IpamError::ParseError
    );
}

#[test]
fn to_proto_scope_needs_the_first_description() {
    let bare = Schema { pool: 0x6440_0000u128, descriptions: (None, None), parent: None };
    assert_eq!(bare.to_proto_scope().unwrap_err(), IpamError::MissingDescription);
}

#[test]
fn stored_record_round_trips() {
    let sel = Schema::new_from_string("100.64.0.0".to_string(), 17, None).unwrap();
    let bytes = sel.actual.encode_record();
    let back = Schema::new_from_stored(&bytes).unwrap();
    assert_eq!(back.actual, sel.actual);
    assert!(!back.saved);
    assert_eq!(back.selected_prefix_length, None);

    let child = Schema {
        pool: 0x6440_1000u128,
        descriptions: (
            Some(SchemaDescription { prefix_length: 20, allocation_prefix_length: 20, locked: true }),
            Some(SchemaDescription { prefix_length: 24, allocation_prefix_length: 28, locked: false }),
        ),
        parent: Some(0x6440_0000u128),
    };
    let back2 = Schema::new_from_stored(&child.encode_record()).unwrap();
    assert_eq!(back2.actual, child);
}

#[test]
fn allocation_entry_points_report_unimplemented() {
    assert_eq!(Schema::allocate_pool(vec![]).unwrap_err(), IpamError::Unimplemented);
    assert_eq!(
        Schema::allocate_address("100.64.0.0".to_string()).unwrap_err(),
        IpamError::Unimplemented
    );
    assert_eq!(
        Schema::release_pool("100.64.0.0".to_string()).unwrap_err(),
        IpamError::Unimplemented
    );
    assert_eq!(
        Schema::release_address("100.64.0.0".to_string()).unwrap_err(),
        IpamError::Unimplemented
    );
    assert_eq!(Schema::exists_in_database(1).unwrap_err(), IpamError::Unimplemented);
}
