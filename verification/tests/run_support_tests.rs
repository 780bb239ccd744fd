use host_inventory::args::parse_args;
use host_inventory::clock::now_epoch;
use host_inventory::probe::timeout_secs;

fn argv(parts: &[&str]) -> Vec<String> {
    parts.iter().map(|s| s.to_string()).collect()
}

#[test]
fn defaults_without_flags() {
    let cfg = parse_args(&argv(&["prog"])).unwrap();
    assert_eq!(cfg.subnet, "");
    assert!(!cfg.active);
    assert_eq!(cfg.out_path, "inventory.csv");
}

#[test]
fn all_flags_are_read() {
    let cfg = parse_args(&argv(&["prog", "--active", "--subnet", "10.0.0.0/24", "--out", "x.csv"]))
        .unwrap();
    assert!(cfg.active);
    assert_eq!(cfg.subnet, "10.0.0.0/24");
    assert_eq!(cfg.out_path, "x.csv");
}

#[test]
fn unknown_flag_is_returned() {
    match parse_args(&argv(&["prog", "--bogus"])) {
        Err(e) => assert_eq!(e, "--bogus"),
        Ok(_) => panic!("expected the unknown flag to be rejected"),
    }
}

#[test]
fn trailing_subnet_flag_leaves_subnet_empty() {
    let cfg = parse_args(&argv(&["prog", "--subnet"])).unwrap();
    assert_eq!(cfg.subnet, "");
}

#[test]
fn trailing_out_flag_keeps_the_default_path() {
    let cfg = parse_args(&argv(&["prog", "--out"])).unwrap();
    assert_eq!(cfg.out_path, "inventory.csv");
}

#[test]
fn later_values_replace_earlier_ones() {
    let cfg = parse_args(&argv(&["prog", "--out", "a.csv", "--out", "b.csv"])).unwrap();
    assert_eq!(cfg.out_path, "b.csv");
}

#[test]
fn timeouts_round_to_whole_seconds_with_a_floor_of_one() {
    assert_eq!(timeout_secs(750), 1);
    assert_eq!(timeout_secs(1500), 2);
    assert_eq!(timeout_secs(100), 1);
    assert_eq!(timeout_secs(0), 1);
    assert_eq!(timeout_secs(2400), 2);
    assert_eq!(timeout_secs(2501), 3);
}

#[test]
fn timestamp_is_a_decimal_numeral() {
    let ts = now_epoch();
    assert!(!ts.is_empty());
    assert!(ts.chars().all(|c| c.is_ascii_digit()));
    if ts.len() > 1 {
        assert!(!ts.starts_with('0'));
    }
}
