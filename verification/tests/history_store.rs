use laim::history::{GridConfig, HistoryStore};

fn cfg(rows: u32, columns: u32, active: u32) -> GridConfig {
    GridConfig { rows, columns, active }
}

#[test]
fn empty_store_saves_version_line_only() {
    let store = HistoryStore::new();
    assert_eq!(store.save(), b"1\n".to_vec());
}

#[test]
fn save_writes_headers_and_record_lines() {
    let mut store = HistoryStore::new();
    store.append_run(cfg(3, 3, 2), 4, 1500);
    let expected = b"1\n\t\t\t3\n\t\t3\n\t2\n1,4,1500\n".to_vec();
    assert_eq!(store.save(), expected);
}

#[test]
fn append_run_prepends_and_ranks() {
    let mut store = HistoryStore::new();
    store.append_run(cfg(3, 3, 2), 4, 1500);
    store.append_run(cfg(3, 3, 2), 9, 2750);
    let k = store.find(cfg(3, 3, 2)).unwrap();
    assert_eq!(store.bucket_len(k), 2);
    // most recent first, ranked by insertion order
    let first = store.bucket_record(k, 0);
    assert_eq!(first.position, 2);
    assert_eq!(first.score, 9);
    assert_eq!(first.millis, 2750);
    let second = store.bucket_record(k, 1);
    assert_eq!(second.position, 1);
    assert_eq!(second.score, 4);
}

#[test]
fn buckets_are_kept_apart() {
    let mut store = HistoryStore::new();
    store.append_run(cfg(3, 3, 2), 4, 100);
    store.append_run(cfg(4, 3, 2), 7, 200);
    let a = store.find(cfg(3, 3, 2)).unwrap();
    let b = store.find(cfg(4, 3, 2)).unwrap();
    assert_ne!(a, b);
    assert_eq!(store.bucket_len(a), 1);
    assert_eq!(store.bucket_len(b), 1);
    assert_eq!(store.bucket_record(a, 0).score, 4);
    assert_eq!(store.bucket_record(b, 0).score, 7);
    assert!(store.find(cfg(5, 5, 4)).is_none());
}

#[test]
fn save_load_round_trip() {
    let mut store = HistoryStore::new();
    store.append_run(cfg(3, 3, 2), 4, 1500);
    store.append_run(cfg(3, 3, 2), 9, 2750);
    store.append_run(cfg(4, 5, 3), 2, 50);
    store.append_run(cfg(3, 4, 1), 12, 98765432109876543210u128);
    let text = store.save();
    let loaded = HistoryStore::load(&text);
    assert_eq!(loaded.save(), text);
    let k = loaded.find(cfg(3, 3, 2)).unwrap();
    assert_eq!(loaded.bucket_len(k), 2);
    assert_eq!(loaded.bucket_record(k, 0).score, 9);
    assert_eq!(loaded.bucket_record(k, 0).position, 2);
    assert_eq!(loaded.bucket_record(k, 1).score, 4);
    let k2 = loaded.find(cfg(3, 4, 1)).unwrap();
    assert_eq!(loaded.bucket_record(k2, 0).millis, 98765432109876543210u128);
}

#[test]
fn loaded_records_carry_their_config() {
    let text = b"1\n\t\t\t3\n\t\t4\n\t2\n1,5,100\n";
    let loaded = HistoryStore::load(text);
    let k = loaded.find(cfg(3, 4, 2)).unwrap();
    let r = loaded.bucket_record(k, 0);
    assert_eq!(r.rows, 3);
    assert_eq!(r.columns, 4);
    assert_eq!(r.active, 2);
    assert_eq!(r.position, 1);
    assert_eq!(r.score, 5);
    assert_eq!(r.millis, 100);
}

#[test]
fn malformed_text_loads_empty() {
    // no version line
    assert_eq!(HistoryStore::load(b"").len(), 0);
    assert_eq!(HistoryStore::load(b"nonsense").len(), 0);
    // wrong version
    assert_eq!(HistoryStore::load(b"2\n\t\t\t3\n\t\t3\n\t2\n1,4,100\n").len(), 0);
    // record line missing a field
    assert_eq!(HistoryStore::load(b"1\n\t\t\t3\n\t\t3\n\t2\n1,5\n").len(), 0);
    // record line with a non-numeric field
    assert_eq!(HistoryStore::load(b"1\n\t\t\t3\n\t\t3\n\t2\n1,x,100\n").len(), 0);
    // truncated: last line lacks its newline
    assert_eq!(HistoryStore::load(b"1\n\t\t\t3\n\t\t3\n\t2\n1,5,100").len(), 0);
    // record line before any header
    assert_eq!(HistoryStore::load(b"1\n1,5,100\n").len(), 0);
    // active header before any columns header
    assert_eq!(HistoryStore::load(b"1\n\t\t\t3\n\t2\n1,5,100\n").len(), 0);
    // header value out of range for u32
    assert_eq!(HistoryStore::load(b"1\n\t\t\t4294967296\n\t\t3\n\t2\n1,5,100\n").len(), 0);
    // good text all the same parses: the guard cases above are the fault
    assert_eq!(HistoryStore::load(b"1\n\t\t\t3\n\t\t3\n\t2\n1,5,100\n").len(), 1);
}

#[test]
fn clear_drops_one_bucket() {
    let mut store = HistoryStore::new();
    store.append_run(cfg(3, 3, 2), 4, 100);
    store.append_run(cfg(4, 3, 2), 7, 200);
    store.clear(cfg(3, 3, 2));
    assert!(store.find(cfg(3, 3, 2)).is_none());
    assert!(store.find(cfg(4, 3, 2)).is_some());
    assert_eq!(store.len(), 1);
    // clearing an absent bucket changes nothing
    store.clear(cfg(9, 9, 1));
    assert_eq!(store.len(), 1);
}

#[test]
fn clear_all_empties_the_store() {
    let mut store = HistoryStore::new();
    store.append_run(cfg(3, 3, 2), 4, 100);
    store.append_run(cfg(4, 3, 2), 7, 200);
    store.clear_all();
    assert_eq!(store.len(), 0);
    assert_eq!(store.save(), b"1\n".to_vec());
}

#[test]
fn rank_restarts_after_clear() {
    let mut store = HistoryStore::new();
    store.append_run(cfg(3, 3, 2), 4, 100);
    store.append_run(cfg(3, 3, 2), 5, 100);
    store.clear(cfg(3, 3, 2));
    store.append_run(cfg(3, 3, 2), 6, 100);
    let k = store.find(cfg(3, 3, 2)).unwrap();
    assert_eq!(store.bucket_len(k), 1);
    assert_eq!(store.bucket_record(k, 0).position, 1);
}
