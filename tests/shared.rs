use eth_wire::capability::{Capabilities, Capability, SharedCapability, SharedCapabilityError};
use eth_wire::version::{EthVersion, ParseVersionError};

#[test]
fn from_eth_67() {
    let capability = SharedCapability::new("eth", 67, 0).unwrap();

    assert_eq!(capability.name(), "eth");
    assert_eq!(capability.version(), 67);
    assert_eq!(capability, SharedCapability::Eth { version: EthVersion::Eth67, offset: 0 });
}

#[test]
fn from_eth_66() {
    let capability = SharedCapability::new("eth", 66, 0).unwrap();

    assert_eq!(capability.name(), "eth");
    assert_eq!(capability.version(), 66);
    assert_eq!(capability, SharedCapability::Eth { version: EthVersion::Eth66, offset: 0 });
}

#[test]
fn eth_67_at_offset_zero() {
    let capability = SharedCapability::new("eth", 67, 0).unwrap();
    assert_eq!(capability.name(), "eth");
    assert_eq!(capability.version(), 67);
    assert_eq!(capability.offset(), 0);
    assert_eq!(capability.num_messages(), Ok(13));
    assert_eq!(capability, SharedCapability::Eth { version: EthVersion::Eth67, offset: 0 });
}

#[test]
fn eth_66_at_offset_five() {
    let capability = SharedCapability::new("eth", 66, 5).unwrap();
    assert_eq!(capability.name(), "eth");
    assert_eq!(capability.version(), 66);
    assert_eq!(capability.offset(), 5);
    assert_eq!(capability.num_messages(), Ok(15));
    assert_eq!(capability, SharedCapability::Eth { version: EthVersion::Eth66, offset: 5 });
}

#[test]
fn eth_unsupported_version() {
    let r = SharedCapability::new("eth", 9, 0);
    assert_eq!(r, Err(SharedCapabilityError::UnsupportedVersion(ParseVersionError(9))));
    let r = SharedCapability::new("eth", 68, 0);
    assert_eq!(r, Err(SharedCapabilityError::UnsupportedVersion(ParseVersionError(68))));
}

#[test]
fn unknown_capability_has_no_message_count() {
    let capability = SharedCapability::new("unknown-proto", 1, 3).unwrap();
    assert_eq!(capability.num_messages(), Err(SharedCapabilityError::UnknownCapability));
    assert_eq!(capability.offset(), 3);
    assert_eq!(capability.name(), "unknown-proto");
    assert_eq!(capability.version(), 1);
    assert_eq!(
        capability,
        SharedCapability::UnknownCapability { name: "unknown-proto".to_string(), version: 1, offset: 3 }
    );
}

#[test]
fn name_close_to_eth_is_unknown() {
    let capability = SharedCapability::new("eth2", 9, 0).unwrap();
    assert_eq!(capability.name(), "eth2");
    assert_eq!(capability.version(), 9);
    let capability = SharedCapability::new("Eth", 67, 2).unwrap();
    assert_eq!(capability.num_messages(), Err(SharedCapabilityError::UnknownCapability));
}

fn resolve(id: u8, ranges: &[(u8, u8)]) -> Option<usize> {
    ranges.iter().position(|&(start, count)| id >= start && (id as u16) < start as u16 + count as u16)
}

#[test]
fn offsets_partition_message_ids() {
    let a = SharedCapability::new("eth", 67, 0).unwrap();
    let m = a.num_messages().unwrap();
    assert_eq!(m, 13);
    let b = SharedCapability::new("unknown-proto", 1, m).unwrap();
    let count_b: u8 = 4;
    assert_eq!(b.offset(), m);
    let ranges = [(a.offset(), m), (b.offset(), count_b)];
    for id in 0..m {
        assert_eq!(resolve(id, &ranges), Some(0));
    }
    for id in m..m + count_b {
        assert_eq!(resolve(id, &ranges), Some(1));
    }
    for id in m + count_b..=255 {
        assert_eq!(resolve(id, &ranges), None);
    }
}

#[test]
fn eth_version_numbers() {
    assert_eq!(EthVersion::from_u8(66), Ok(EthVersion::Eth66));
    assert_eq!(EthVersion::from_u8(67), Ok(EthVersion::Eth67));
    assert_eq!(EthVersion::from_u8(65), Err(ParseVersionError(65)));
    assert_eq!(EthVersion::Eth66.as_u8(), 66);
    assert_eq!(EthVersion::Eth67.as_u8(), 67);
    assert_eq!(EthVersion::Eth66.total_messages(), 15);
    assert_eq!(EthVersion::Eth67.total_messages(), 13);
}

fn cap(name: &str, version: usize) -> Capability {
    Capability::new(name.to_string(), version)
}

#[test]
fn capability_version_checks() {
    assert!(cap("eth", 66).is_eth_v66());
    assert!(!cap("eth", 66).is_eth_v67());
    assert!(cap("eth", 67).is_eth_v67());
    assert!(!cap("eth", 67).is_eth_v66());
    assert!(!cap("snap", 66).is_eth_v66());
    assert!(!cap("et", 67).is_eth_v67());
    assert!(!cap("eth", 68).is_eth_v67());
}

#[test]
fn from_list_keeps_order_and_flags() {
    let list = vec![cap("snap", 1), cap("eth", 67), cap("les", 4)];
    let caps = Capabilities::from(list.clone());
    assert_eq!(caps.capabilities(), &list[..]);
    assert!(caps.supports_eth());
    assert!(caps.supports_eth_v67());
    assert!(!caps.supports_eth_v66());
    assert_eq!(caps.clone().into_inner(), list);
    assert_eq!(caps.clone(), caps);
}

#[test]
fn from_list_with_both_versions() {
    let caps = Capabilities::from(vec![cap("eth", 66), cap("eth", 67)]);
    assert!(caps.supports_eth_v66());
    assert!(caps.supports_eth_v67());
    assert!(caps.supports_eth());
}

#[test]
fn from_empty_list() {
    let caps = Capabilities::from(Vec::new());
    assert!(caps.capabilities().is_empty());
    assert!(!caps.supports_eth());
    assert!(!caps.supports_eth_v66());
    assert!(!caps.supports_eth_v67());
}

#[test]
fn from_list_without_eth() {
    let caps = Capabilities::from(vec![cap("snap", 66), cap("eth2", 67)]);
    assert!(!caps.supports_eth());
    assert!(!caps.supports_eth_v66());
    assert!(!caps.supports_eth_v67());
}
