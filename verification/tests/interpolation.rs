use ipam::error::IpamError;
use ipam::interpolate::ProtoScope;
use ipam::util::{string_to_ip_cidr, string_to_u128_id};

#[test]
fn new_type_backed_proto_scope() {
    let block = string_to_ip_cidr("100.64.0.0".to_string(), 17).unwrap();
    let ps = ProtoScope::new_type_backed_proto_scope(block).unwrap();
    let count = ps.children(20).unwrap().len();
    assert_eq!(count, 8);
}

#[test]
fn children_form_exact_partition() {
    let block = string_to_ip_cidr("100.64.0.0".to_string(), 17).unwrap();
    let ps = ProtoScope::new_type_backed_proto_scope(block).unwrap();
    let kids = ps.children(20).unwrap();
    assert_eq!(kids.len(), 8);
    let parent_first = block.first_address();
    let parent_last = block.last_address();
    let mut expected_next = parent_first;
    for child in kids.iter() {
        let c = child.cidr.unwrap();
        assert_eq!(c.prefix_length, 20);
        assert_eq!(c.first_address(), expected_next);
        expected_next = c.last_address() + 1;
    }
    let last = kids.last().unwrap().cidr.unwrap();
    assert_eq!(last.last_address(), parent_last);
    assert_eq!(last.last_address(), string_to_u128_id("100.64.127.255".to_string()).unwrap());
}

#[test]
fn children_reject_coarser_prefix() {
    let block = string_to_ip_cidr("100.64.0.0".to_string(), 17).unwrap();
    let ps = ProtoScope::new_type_backed_proto_scope(block).unwrap();
    assert_eq!(ps.children(17).unwrap_err(), IpamError::InvalidSubdivision);
    assert_eq!(ps.children(8).unwrap_err(), IpamError::InvalidSubdivision);
}

#[test]
fn children_of_null_are_empty() {
    let ps = ProtoScope::null().unwrap();
    assert_eq!(ps.children(20).unwrap().len(), 0);
}

#[test]
fn children_past_family_width_are_empty() {
    let block = string_to_ip_cidr("100.64.0.0".to_string(), 17).unwrap();
    let ps = ProtoScope::new_type_backed_proto_scope(block).unwrap();
    assert_eq!(ps.children(33).unwrap().len(), 0);
}

#[test]
fn children_cover_full_ipv4_space() {
    let block = string_to_ip_cidr("0.0.0.0".to_string(), 0).unwrap();
    let ps = ProtoScope::new_type_backed_proto_scope(block).unwrap();
    let kids = ps.children(1).unwrap();
    assert_eq!(kids.len(), 2);
    assert_eq!(kids[0].cidr.unwrap().first_address(), 0);
    assert_eq!(kids[1].cidr.unwrap().last_address(), u32::MAX as u128);
}

#[test]
fn children_cover_full_ipv6_space() {
    let block = string_to_ip_cidr("8000::".to_string(), 1).unwrap();
    let ps = ProtoScope::new_type_backed_proto_scope(block).unwrap();
    let kids = ps.children(2).unwrap();
    assert_eq!(kids.len(), 2);
    assert_eq!(kids[1].cidr.unwrap().last_address(), u128::MAX);
}
