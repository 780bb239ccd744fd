use host_inventory::cidr::{iter_hosts, CidrError};

#[test]
fn small_subnet_expands_to_usable_hosts() {
    let hosts = iter_hosts("10.0.0.0/30").unwrap();
    assert_eq!(hosts, vec!["10.0.0.1".to_string(), "10.0.0.2".to_string()]);
}

#[test]
fn host_count_matches_formula_for_slash_24() {
    let hosts = iter_hosts("192.168.1.0/24").unwrap();
    assert_eq!(hosts.len(), 254);
    assert_eq!(hosts[0], "192.168.1.1");
    assert_eq!(hosts[253], "192.168.1.254");
}

#[test]
fn host_count_matches_formula_for_all_prefixes_in_ceiling() {
    for p in 20..=30u32 {
        let hosts = iter_hosts(&format!("10.0.0.0/{}", p)).unwrap();
        assert_eq!(hosts.len() as u64, (1u64 << (32 - p)) - 2);
    }
}

#[test]
fn slash_20_passes_the_ceiling() {
    let hosts = iter_hosts("10.0.0.0/20").unwrap();
    assert_eq!(hosts.len(), 4094);
}

#[test]
fn slash_19_fails_the_ceiling() {
    assert_eq!(iter_hosts("10.0.0.0/19"), Err(CidrError::RangeTooLarge { count: 8190 }));
}

#[test]
fn prefix_7_is_rejected() {
    assert_eq!(iter_hosts("10.0.0.0/7"), Err(CidrError::PrefixOutOfRange { prefix: 7 }));
}

#[test]
fn prefix_31_is_rejected() {
    assert_eq!(iter_hosts("10.0.0.0/31"), Err(CidrError::PrefixOutOfRange { prefix: 31 }));
}

#[test]
fn prefix_8_is_accepted_by_the_range_check() {
    // A /8 passes the prefix-range check and is stopped only by the
    // host-count ceiling.
    assert_eq!(iter_hosts("10.0.0.0/8"), Err(CidrError::RangeTooLarge { count: 16777214 }));
}

#[test]
fn prefix_30_is_accepted() {
    assert!(iter_hosts("10.0.0.0/30").is_ok());
}

#[test]
fn base_bits_below_the_prefix_are_ignored() {
    let hosts = iter_hosts("192.168.1.77/29").unwrap();
    assert_eq!(
        hosts,
        vec![
            "192.168.1.73".to_string(),
            "192.168.1.74".to_string(),
            "192.168.1.75".to_string(),
            "192.168.1.76".to_string(),
            "192.168.1.77".to_string(),
            "192.168.1.78".to_string(),
        ]
    );
}

#[test]
fn missing_slash_is_invalid_cidr() {
    assert_eq!(iter_hosts("10.0.0.0"), Err(CidrError::InvalidCidr));
}

#[test]
fn two_slashes_are_invalid_cidr() {
    assert_eq!(iter_hosts("10.0.0.0/24/3"), Err(CidrError::InvalidCidr));
}

#[test]
fn bad_address_is_invalid_address() {
    assert_eq!(iter_hosts("300.1.2.3/24"), Err(CidrError::InvalidAddress));
    assert_eq!(iter_hosts("10.0.0/24"), Err(CidrError::InvalidAddress));
}

#[test]
fn bad_prefix_is_invalid_prefix() {
    assert_eq!(iter_hosts("10.0.0.0/ab"), Err(CidrError::InvalidPrefix));
    assert_eq!(iter_hosts("10.0.0.0/"), Err(CidrError::InvalidPrefix));
    assert_eq!(iter_hosts("10.0.0.0/99999999999"), Err(CidrError::InvalidPrefix));
}

#[test]
fn messages_name_the_rejection() {
    assert_eq!(CidrError::InvalidCidr.message(), "Invalid CIDR");
    assert_eq!(CidrError::InvalidAddress.message(), "Invalid IPv4");
    assert_eq!(CidrError::InvalidPrefix.message(), "Invalid prefix");
    assert_eq!(
        CidrError::PrefixOutOfRange { prefix: 7 }.message(),
        "Refusing prefix /7 (use /8..../30)"
    );
    assert_eq!(
        CidrError::RangeTooLarge { count: 8190 }.message(),
        "Refusing to scan 8190 hosts; use smaller subnet"
    );
}
