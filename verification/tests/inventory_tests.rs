use host_inventory::cidr::iter_hosts;
use host_inventory::inventory::{Inventory, ProbeLog};
use host_inventory::neighbors::parse_neighbors;

const TS: &str = "1700000000";

fn active_run(neigh1: &str, arp1: &str, subnet: &str, up: &[&str], neigh2: &str, arp2: &str) -> String {
    let ts = TS.to_string();
    let first = parse_neighbors(neigh1, arp1);
    let mut inv = Inventory::from_neighbors(&first, &ts);
    let hosts = iter_hosts(subnet).unwrap();
    let mut probes = ProbeLog::new();
    for ip in hosts {
        let ok = up.contains(&ip.as_str());
        probes.add(ip, ok);
    }
    inv.record_probes(&probes, &ts);
    let second = parse_neighbors(neigh2, arp2);
    inv.merge_neighbors(&second, &ts);
    inv.apply_reachability(&probes);
    inv.export_csv()
}

#[test]
fn passive_run_exports_one_neighbor_row() {
    let ts = TS.to_string();
    let nbrs = parse_neighbors("10.0.0.5 dev eth0 lladdr AA:BB:CC:DD:EE:FF REACHABLE\n", "");
    let inv = Inventory::from_neighbors(&nbrs, &ts);
    assert_eq!(inv.len(), 1);
    assert_eq!(
        inv.export_csv(),
        "ip,mac,reachable,seen_via,timestamp\n10.0.0.5,aa:bb:cc:dd:ee:ff,,neigh,1700000000\n"
    );
}

#[test]
fn reachable_unknown_hosts_get_provisional_ping_records() {
    let out = active_run("", "", "10.0.0.0/30", &["10.0.0.1", "10.0.0.2"], "", "");
    assert_eq!(
        out,
        "ip,mac,reachable,seen_via,timestamp\n\
         10.0.0.1,,1,ping,1700000000\n\
         10.0.0.2,,1,ping,1700000000\n"
    );
}

#[test]
fn unreachable_unknown_hosts_leave_no_records() {
    let out = active_run("", "", "10.0.0.0/30", &[], "", "");
    assert_eq!(out, "ip,mac,reachable,seen_via,timestamp\n");
}

#[test]
fn probe_verdict_reaches_existing_neighbor_records() {
    let neigh = "10.0.0.1 dev eth0 lladdr aa:aa:aa:aa:aa:aa\n10.0.0.2 dev eth0 lladdr bb:bb:bb:bb:bb:bb\n";
    let out = active_run(neigh, "", "10.0.0.0/30", &["10.0.0.1"], "", "");
    assert_eq!(
        out,
        "ip,mac,reachable,seen_via,timestamp\n\
         10.0.0.1,aa:aa:aa:aa:aa:aa,1,neigh,1700000000\n\
         10.0.0.2,bb:bb:bb:bb:bb:bb,0,neigh,1700000000\n"
    );
}

#[test]
fn ping_record_is_upgraded_by_second_read() {
    let second = "10.0.0.1 dev eth0 lladdr AA:BB:CC:DD:EE:FF REACHABLE\n";
    let out = active_run("", "", "10.0.0.0/30", &["10.0.0.1"], second, "");
    assert_eq!(
        out,
        "ip,mac,reachable,seen_via,timestamp\n\
         10.0.0.1,aa:bb:cc:dd:ee:ff,1,neigh,1700000000\n"
    );
}

#[test]
fn merge_with_empty_second_read_changes_nothing() {
    let ts = TS.to_string();
    let nbrs = parse_neighbors(
        "10.0.0.5 dev eth0 lladdr aa:bb:cc:dd:ee:ff\n192.168.1.9 dev eth0 FAILED\n",
        "",
    );
    let mut inv = Inventory::from_neighbors(&nbrs, &ts);
    let before = inv.export_csv();
    let empty = parse_neighbors("", "");
    inv.merge_neighbors(&empty, &ts);
    assert_eq!(inv.export_csv(), before);
}

#[test]
fn merge_fills_empty_mac_but_never_erases_one() {
    let ts = TS.to_string();
    let nbrs = parse_neighbors(
        "10.0.0.1 dev eth0 lladdr aa:aa:aa:aa:aa:aa\n10.0.0.2 dev eth0\n",
        "",
    );
    let mut inv = Inventory::from_neighbors(&nbrs, &ts);
    let second = parse_neighbors(
        "10.0.0.1 dev eth0\n10.0.0.2 dev eth0 lladdr cc:cc:cc:cc:cc:cc\n",
        "",
    );
    inv.merge_neighbors(&second, &ts);
    let out = inv.export_csv();
    assert_eq!(
        out,
        "ip,mac,reachable,seen_via,timestamp\n\
         10.0.0.1,aa:aa:aa:aa:aa:aa,,neigh,1700000000\n\
         10.0.0.2,cc:cc:cc:cc:cc:cc,,neigh,1700000000\n"
    );
}

#[test]
fn neighbors_outside_the_scanned_subnet_stay_unknown() {
    let neigh = "192.168.5.5 dev eth0 lladdr aa:aa:aa:aa:aa:aa\n";
    let out = active_run(neigh, "", "10.0.0.0/30", &["10.0.0.1"], "", "");
    assert_eq!(
        out,
        "ip,mac,reachable,seen_via,timestamp\n\
         10.0.0.1,,1,ping,1700000000\n\
         192.168.5.5,aa:aa:aa:aa:aa:aa,,neigh,1700000000\n"
    );
}

#[test]
fn rows_are_sorted_by_address_string_not_numerically() {
    let neigh = "10.0.0.2 dev eth0 lladdr aa:aa:aa:aa:aa:aa\n10.0.0.10 dev eth0 lladdr bb:bb:bb:bb:bb:bb\n";
    let ts = TS.to_string();
    let nbrs = parse_neighbors(neigh, "");
    let inv = Inventory::from_neighbors(&nbrs, &ts);
    assert_eq!(
        inv.export_csv(),
        "ip,mac,reachable,seen_via,timestamp\n\
         10.0.0.10,bb:bb:bb:bb:bb:bb,,neigh,1700000000\n\
         10.0.0.2,aa:aa:aa:aa:aa:aa,,neigh,1700000000\n"
    );
}

#[test]
fn identical_inputs_give_byte_identical_output() {
    let neigh = "10.0.0.5 dev eth0 lladdr aa:bb:cc:dd:ee:ff\n192.168.1.9 dev eth0 FAILED\n";
    let second = "10.0.0.1 dev eth0 lladdr 11:11:11:11:11:11\n";
    let a = active_run(neigh, "", "10.0.0.0/29", &["10.0.0.1", "10.0.0.3"], second, "");
    let b = active_run(neigh, "", "10.0.0.0/29", &["10.0.0.1", "10.0.0.3"], second, "");
    assert_eq!(a, b);
}
