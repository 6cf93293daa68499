use ipam::block::{Block, IpAddress};
use ipam::error::IpamError;
use ipam::schema::{Schema, SchemaDescription};
use ipam::util::{increment_address, string_to_u128_id};

#[test]
fn address_identifiers_take_their_numeric_values() {
    assert_eq!(string_to_u128_id("100.64.0.0".to_string()).unwrap(), 0x6440_0000);
    assert_eq!(string_to_u128_id("0.0.0.0".to_string()).unwrap(), 0);
    assert_eq!(string_to_u128_id("255.255.255.255".to_string()).unwrap(), u32::MAX as u128);
    assert_eq!(string_to_u128_id("::1".to_string()).unwrap(), 1);
    assert_eq!(
        string_to_u128_id("2001:db8::".to_string()).unwrap(),
        0x2001_0db8_0000_0000_0000_0000_0000_0000
    );
    assert_eq!(
        string_to_u128_id("not an address".to_string()).unwrap_err(),
        IpamError::ParseError
    );
}

#[test]
fn increment_moves_one_address_forward() {
    let a = increment_address(IpAddress { v6: false, value: 0x0102_0304 }).unwrap();
    assert_eq!(a, IpAddress { v6: false, value: 0x0102_0305 });
    let b = increment_address(IpAddress { v6: true, value: 0xFFFF_FFFF }).unwrap();
    assert_eq!(b, IpAddress { v6: true, value: 0x1_0000_0000 });
}

#[test]
fn increment_reports_overflow_instead_of_wrapping() {
    assert_eq!(
        increment_address(IpAddress { v6: false, value: u32::MAX as u128 }).unwrap_err(),
        IpamError::RangeOverflow
    );
    assert_eq!(
        increment_address(IpAddress { v6: true, value: u128::MAX }).unwrap_err(),
        IpamError::RangeOverflow
    );
}

#[test]
fn identifier_round_trips_into_block_reconstruction() {
    // IPv4: build the block directly, then again from the identifier
    let direct: Block = ipam::util::string_to_ip_cidr("10.0.0.0".to_string(), 8).unwrap();
    let id = string_to_u128_id("10.0.0.0".to_string()).unwrap();
    let rec = Schema {
        pool: id,
        descriptions: (
            Some(SchemaDescription { prefix_length: 8, allocation_prefix_length: 8, locked: false }),
            None,
        ),
        parent: None,
    };
    let rebuilt = rec.to_proto_scope().unwrap().cidr.unwrap();
    assert_eq!(rebuilt.first_address(), direct.first_address());
    assert_eq!(rebuilt.prefix_length, direct.prefix_length);
    assert_eq!(rebuilt.v6, direct.v6);

    // IPv6 above the 32-bit range keeps its family under magnitude inference
    let direct6: Block = ipam::util::string_to_ip_cidr("2001:db8::".to_string(), 32).unwrap();
    let id6 = string_to_u128_id("2001:db8::".to_string()).unwrap();
    let rec6 = Schema {
        pool: id6,
        descriptions: (
            Some(SchemaDescription {
                prefix_length: 32,
                allocation_prefix_length: 32,
                locked: false,
            }),
            None,
        ),
        parent: None,
    };
    let rebuilt6 = rec6.to_proto_scope().unwrap().cidr.unwrap();
    assert_eq!(rebuilt6.first_address(), direct6.first_address());
    assert_eq!(rebuilt6.prefix_length, direct6.prefix_length);
    assert_eq!(rebuilt6.v6, direct6.v6);
}

#[test]
fn last_address_closes_the_block() {
    let b = ipam::util::string_to_ip_cidr("100.64.0.0".to_string(), 17).unwrap();
    assert_eq!(b.last_address(), string_to_u128_id("100.64.127.255".to_string()).unwrap());
    let b6 = ipam::util::string_to_ip_cidr("2001:db8::".to_string(), 126).unwrap();
    assert_eq!(b6.last_address(), b6.first_address() + 3);
}
