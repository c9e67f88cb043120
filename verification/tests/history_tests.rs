use runsteps::history::{
    latest_entry_for, now_rfc3339, record_entry, rfc3339_from_unix_secs, sha256_hex,
    unix_secs_to_datetime, History, HistoryEntry, MAX_ENTRIES_PER_CONFIG,
};

fn entry(path: &str, tag: &str) -> HistoryEntry {
    HistoryEntry {
        config_path: path.to_string(),
        config_sha256: "abc".to_string(),
        selected: vec![tag.to_string()],
        timestamp: "2024-01-01T00:00:00Z".to_string(),
    }
}

#[test]
fn record_then_latest_returns_the_new_run() {
    let mut h = History::default();
    assert_eq!(h.version, 0);
    record_entry(&mut h, entry("/a.toml", "one"));
    record_entry(&mut h, entry("/b.toml", "other"));
    record_entry(&mut h, entry("/a.toml", "two"));
    assert_eq!(h.version, 1);
    let e = latest_entry_for(&h, "/a.toml").unwrap();
    assert_eq!(e.selected, vec!["two".to_string()]);
    let e = latest_entry_for(&h, "/b.toml").unwrap();
    assert_eq!(e.selected, vec!["other".to_string()]);
    assert!(latest_entry_for(&h, "/c.toml").is_none());
}

#[test]
fn record_keeps_at_most_ten_runs_per_config() {
    let mut h = History::default();
    record_entry(&mut h, entry("/b.toml", "b"));
    for i in 0..12 {
        record_entry(&mut h, entry("/a.toml", &format!("run{i}")));
    }
    let a: Vec<&HistoryEntry> = h.entries.iter().filter(|e| e.config_path == "/a.toml").collect();
    assert_eq!(a.len(), MAX_ENTRIES_PER_CONFIG);
    assert_eq!(a[0].selected, vec!["run2".to_string()]);
    assert_eq!(a[9].selected, vec!["run11".to_string()]);
    assert_eq!(h.entries[0].config_path, "/b.toml");
}

#[test]
fn sha256_hex_of_known_inputs() {
    assert_eq!(
        sha256_hex(b"abc"),
        "ba7816bf8f01cfea414140de5dae2223b00361a396177a9cb410ff61f20015ad"
    );
    assert_eq!(
        sha256_hex(b""),
        "e3b0c44298fc1c149afbf4c8996fb92427ae41e4649b934ca495991b7852b855"
    );
}

#[test]
fn datetime_of_known_instants() {
    assert_eq!(unix_secs_to_datetime(0), (1970, 1, 1, 0, 0, 0));
    assert_eq!(unix_secs_to_datetime(951_782_400), (2000, 2, 29, 0, 0, 0));
    assert_eq!(unix_secs_to_datetime(1_700_000_000), (2023, 11, 14, 22, 13, 20));
}

#[test]
fn rfc3339_of_known_instants() {
    assert_eq!(rfc3339_from_unix_secs(0), "1970-01-01T00:00:00Z");
    assert_eq!(rfc3339_from_unix_secs(1_700_000_000), "2023-11-14T22:13:20Z");
    assert_eq!(rfc3339_from_unix_secs(4_102_444_799), "2099-12-31T23:59:59Z");
}

#[test]
fn now_is_a_well_formed_timestamp() {
    let now = now_rfc3339();
    assert_eq!(now.len(), 20);
    assert!(now.ends_with('Z'));
    assert_eq!(&now[4..5], "-");
    assert_eq!(&now[10..11], "T");
}
