use host_inventory::neighbors::{parse_neighbors, Method};

#[test]
fn neigh_lines_yield_address_and_lowered_mac() {
    let neigh = "10.0.0.5 dev eth0 lladdr AA:BB:CC:DD:EE:FF REACHABLE\n";
    let nbrs = parse_neighbors(neigh, "");
    assert_eq!(nbrs.len(), 1);
    let e = nbrs.entry_at(0);
    assert_eq!(e.ip, "10.0.0.5");
    assert_eq!(e.mac, "aa:bb:cc:dd:ee:ff");
    assert!(e.via == Method::NeighborTable);
    assert_eq!(e.via.label(), "neigh");
}

#[test]
fn neigh_line_without_lladdr_keeps_mac_empty() {
    let neigh = "192.168.1.9 dev eth0 FAILED\n";
    let nbrs = parse_neighbors(neigh, "");
    assert_eq!(nbrs.len(), 1);
    let e = nbrs.entry_at(0);
    assert_eq!(e.ip, "192.168.1.9");
    assert_eq!(e.mac, "");
}

#[test]
fn short_neigh_lines_are_skipped() {
    let neigh = "lonetoken\n10.0.0.5 dev eth0\n";
    let nbrs = parse_neighbors(neigh, "");
    assert_eq!(nbrs.len(), 1);
    assert_eq!(nbrs.entry_at(0).ip, "10.0.0.5");
}

#[test]
fn later_neigh_line_for_same_address_wins() {
    let neigh = "10.0.0.5 dev eth0 lladdr 11:11:11:11:11:11\n10.0.0.5 dev eth0 lladdr 22:22:22:22:22:22\n";
    let nbrs = parse_neighbors(neigh, "");
    assert_eq!(nbrs.len(), 1);
    assert_eq!(nbrs.entry_at(0).mac, "22:22:22:22:22:22");
}

#[test]
fn blank_primary_output_falls_back_to_arp() {
    let arp = "? (10.0.0.7) at 11:22:33:44:55:66 [ether] on eth0\n";
    let nbrs = parse_neighbors("  \n", arp);
    assert_eq!(nbrs.len(), 1);
    let e = nbrs.entry_at(0);
    assert_eq!(e.ip, "10.0.0.7");
    assert_eq!(e.mac, "11:22:33:44:55:66");
    assert!(e.via == Method::ArpFallback);
    assert_eq!(e.via.label(), "arp");
}

#[test]
fn nonblank_primary_output_suppresses_arp() {
    let neigh = "10.0.0.5 dev eth0 lladdr aa:bb:cc:dd:ee:ff\n";
    let arp = "? (10.0.0.7) at 11:22:33:44:55:66 [ether] on eth0\n";
    let nbrs = parse_neighbors(neigh, arp);
    assert_eq!(nbrs.len(), 1);
    assert_eq!(nbrs.entry_at(0).ip, "10.0.0.5");
}

#[test]
fn arp_lines_without_the_expected_shape_are_skipped() {
    let arp = "nothing useful here\n? (10.0.0.7) at 11:22:33:44:55:66 [ether] on eth0\n";
    let nbrs = parse_neighbors("", arp);
    assert_eq!(nbrs.len(), 1);
    assert_eq!(nbrs.entry_at(0).ip, "10.0.0.7");
}

#[test]
fn arp_incomplete_entry_keeps_first_token_lowered() {
    let arp = "? (10.0.0.8) at <INCOMPLETE> on eth0\n";
    let nbrs = parse_neighbors("", arp);
    assert_eq!(nbrs.len(), 1);
    assert_eq!(nbrs.entry_at(0).mac, "<incomplete>");
}

#[test]
fn ping_label_is_ping() {
    assert_eq!(Method::Ping.label(), "ping");
}
