use host_inventory::ip::{ipv4_to_u32, u32_to_ipv4};

#[test]
fn parses_dotted_quads() {
    assert_eq!(ipv4_to_u32("10.0.0.5"), Some(0x0A00_0005));
    assert_eq!(ipv4_to_u32("0.0.0.0"), Some(0));
    assert_eq!(ipv4_to_u32("255.255.255.255"), Some(u32::MAX));
    assert_eq!(ipv4_to_u32("192.168.1.77"), Some(0xC0A8_014D));
}

#[test]
fn leading_zeros_parse_to_the_same_value() {
    assert_eq!(ipv4_to_u32("010.000.0.001"), ipv4_to_u32("10.0.0.1"));
}

#[test]
fn rejects_malformed_addresses() {
    assert_eq!(ipv4_to_u32("1.2.3"), None);
    assert_eq!(ipv4_to_u32("1.2.3.4.5"), None);
    assert_eq!(ipv4_to_u32("256.0.0.1"), None);
    assert_eq!(ipv4_to_u32("a.b.c.d"), None);
    assert_eq!(ipv4_to_u32(""), None);
    assert_eq!(ipv4_to_u32("1..2.3"), None);
}

#[test]
fn formats_values_as_dotted_quads() {
    assert_eq!(u32_to_ipv4(0x0A00_0005), "10.0.0.5");
    assert_eq!(u32_to_ipv4(0), "0.0.0.0");
    assert_eq!(u32_to_ipv4(u32::MAX), "255.255.255.255");
}

#[test]
fn value_round_trips_through_text() {
    for &u in &[0u32, 1, 255, 256, 0x0A00_0005, 0xC0A8_014D, u32::MAX - 1, u32::MAX] {
        assert_eq!(ipv4_to_u32(&u32_to_ipv4(u)), Some(u));
    }
}

#[test]
fn canonical_text_round_trips_through_value() {
    for s in ["10.0.0.1", "0.0.0.0", "255.255.255.255", "172.16.254.3"] {
        let u = ipv4_to_u32(s).unwrap();
        assert_eq!(u32_to_ipv4(u), s);
    }
}
