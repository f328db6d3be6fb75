use kvs::codec::{decode_at, encode_command, Command, Decoded};
use kvs::engine::{KvsEngine, MemStore};
use kvs::error::KvsError;
use kvs::store::{Config, KvStore, Segment};

fn snapshot(store: &KvStore) -> Vec<Segment> {
    let mut out = Vec::new();
    for i in 0..store.segment_count() {
        let seg = store.segment(i);
        out.push(Segment { id: seg.id, data: seg.data.clone() });
    }
    out
}

fn total_bytes(store: &KvStore) -> usize {
    let mut n = 0;
    for i in 0..store.segment_count() {
        n += store.segment(i).data.len();
    }
    n
}

fn get(store: &KvStore, key: &str) -> Option<String> {
    store.get(key.to_owned()).unwrap()
}

fn quiet() -> Config {
    Config { compaction_threshold: u64::MAX, segment_limit: 1 << 20 }
}

#[test]
fn overwrite_then_remove_then_missing_remove() {
    let mut store = KvStore::new();
    store.set("a".to_owned(), "1".to_owned()).unwrap();
    store.set("a".to_owned(), "2".to_owned()).unwrap();
    assert_eq!(get(&store, "a"), Some("2".to_owned()));
    store.remove("a".to_owned()).unwrap();
    assert_eq!(get(&store, "a"), None);
    assert!(matches!(store.remove("b".to_owned()), Err(KvsError::KeyNotFound)));
}

#[test]
fn get_of_never_set_key_is_none() {
    let store = KvStore::new();
    assert_eq!(get(&store, "nothing"), None);
}

#[test]
fn last_operation_on_each_key_decides() {
    let mut store = KvStore::new();
    store.set("x".to_owned(), "1".to_owned()).unwrap();
    store.set("y".to_owned(), "2".to_owned()).unwrap();
    store.remove("x".to_owned()).unwrap();
    store.set("y".to_owned(), "3".to_owned()).unwrap();
    store.set("z".to_owned(), "4".to_owned()).unwrap();
    store.remove("z".to_owned()).unwrap();
    store.set("z".to_owned(), "5".to_owned()).unwrap();
    assert_eq!(get(&store, "x"), None);
    assert_eq!(get(&store, "y"), Some("3".to_owned()));
    assert_eq!(get(&store, "z"), Some("5".to_owned()));
    assert_eq!(get(&store, "w"), None);
}

#[test]
fn empty_key_and_value_and_unicode() {
    let mut store = KvStore::new();
    store.set(String::new(), String::new()).unwrap();
    store.set("clé".to_owned(), "värde ✓".to_owned()).unwrap();
    assert_eq!(get(&store, ""), Some(String::new()));
    assert_eq!(get(&store, "clé"), Some("värde ✓".to_owned()));
}

#[test]
fn record_bytes_are_exact() {
    let bytes = encode_command(&Command::set("a".to_owned(), "1".to_owned()));
    assert_eq!(bytes, vec![0, 1, 0, 0, 0, 1, 0, 0, 0, b'a', b'1']);
    let bytes = encode_command(&Command::remove("key".to_owned()));
    assert_eq!(bytes, vec![1, 3, 0, 0, 0, 0, 0, 0, 0, b'k', b'e', b'y']);
    let long = "v".repeat(300);
    let bytes = encode_command(&Command::set("k".to_owned(), long));
    assert_eq!(&bytes[..9], &[0, 1, 0, 0, 0, 44, 1, 0, 0]);
    assert_eq!(bytes.len(), 9 + 1 + 300);
}

#[test]
fn records_read_back() {
    let mut data = encode_command(&Command::set("k1".to_owned(), "héllo".to_owned()));
    let first = data.len();
    data.extend(encode_command(&Command::remove("k2".to_owned())));
    match decode_at(&data, 0) {
        Decoded::Complete { command: Command::Insert { key, value }, len } => {
            assert_eq!(key, "k1");
            assert_eq!(value, "héllo");
            assert_eq!(len, first);
        }
        other => panic!("unexpected {:?}", other),
    }
    match decode_at(&data, first) {
        Decoded::Complete { command: Command::Remove { key }, len } => {
            assert_eq!(key, "k2");
            assert_eq!(first + len, data.len());
        }
        other => panic!("unexpected {:?}", other),
    }
}

#[test]
fn cut_records_read_as_truncated() {
    let data = encode_command(&Command::set("key".to_owned(), "value".to_owned()));
    for cut in 0..data.len() {
        assert!(matches!(decode_at(&data[..cut], 0), Decoded::Truncated));
    }
}

#[test]
fn bad_records_read_as_corrupt() {
    assert!(matches!(decode_at(&[7, 0, 0, 0, 0, 0, 0, 0, 0], 0), Decoded::Corrupt));
    assert!(matches!(decode_at(&[1, 1, 0, 0, 0, 1, 0, 0, 0, b'a', b'b'], 0), Decoded::Corrupt));
    assert!(matches!(decode_at(&[0, 1, 0, 0, 0, 1, 0, 0, 0, 0xff, b'b'], 0), Decoded::Corrupt));
}

#[test]
fn reopen_gives_the_same_contents() {
    let mut store = KvStore::with_config(Config { compaction_threshold: u64::MAX, segment_limit: 40 });
    for i in 0..20 {
        store.set(format!("k{}", i % 7), format!("v{}", i)).unwrap();
    }
    store.remove("k3".to_owned()).unwrap();
    assert!(store.segment_count() > 1);
    let reopened = KvStore::open(snapshot(&store), store.config()).unwrap();
    assert_eq!(reopened.segment_count(), store.segment_count());
    for i in 0..8 {
        let key = format!("k{}", i);
        assert_eq!(get(&reopened, &key), get(&store, &key));
    }
    assert_eq!(get(&reopened, "k3"), None);
    assert_eq!(get(&reopened, "k6"), Some("v13".to_owned()));
}

#[test]
fn open_without_segments_is_empty() {
    let store = KvStore::open(Vec::new(), quiet()).unwrap();
    assert_eq!(store.segment_count(), 1);
    assert_eq!(store.segment(0).id, 0);
    assert_eq!(get(&store, "a"), None);
}

#[test]
fn crash_mid_record_keeps_earlier_writes() {
    let mut store = KvStore::with_config(quiet());
    store.set("a".to_owned(), "1".to_owned()).unwrap();
    store.set("b".to_owned(), "2".to_owned()).unwrap();
    let partial = encode_command(&Command::set("a".to_owned(), "overwritten".to_owned()));
    for cut in 1..partial.len() {
        let mut segs = snapshot(&store);
        let last = segs.len() - 1;
        let full_len = segs[last].data.len();
        segs[last].data.extend_from_slice(&partial[..cut]);
        let mut reopened = KvStore::open(segs, quiet()).unwrap();
        assert_eq!(get(&reopened, "a"), Some("1".to_owned()));
        assert_eq!(get(&reopened, "b"), Some("2".to_owned()));
        assert_eq!(reopened.segment(0).data.len(), full_len);
        reopened.set("c".to_owned(), "3".to_owned()).unwrap();
        let again = KvStore::open(snapshot(&reopened), quiet()).unwrap();
        assert_eq!(get(&again, "c"), Some("3".to_owned()));
        assert_eq!(get(&again, "a"), Some("1".to_owned()));
    }
}

#[test]
fn truncated_segment_keeps_complete_records() {
    let mut store = KvStore::with_config(quiet());
    store.set("a".to_owned(), "1".to_owned()).unwrap();
    let after_a = store.segment(0).data.len();
    store.set("b".to_owned(), "2".to_owned()).unwrap();
    let mut segs = snapshot(&store);
    segs[0].data.truncate(after_a + 5);
    let reopened = KvStore::open(segs, quiet()).unwrap();
    assert_eq!(get(&reopened, "a"), Some("1".to_owned()));
    assert_eq!(get(&reopened, "b"), None);
}

#[test]
fn corrupt_segment_fails_open() {
    let mut data = encode_command(&Command::set("a".to_owned(), "1".to_owned()));
    let offset = data.len();
    data.extend_from_slice(&[9, 0, 0, 0, 0, 0, 0, 0, 0, 0]);
    let segs = vec![Segment { id: 4, data }];
    match KvStore::open(segs, quiet()) {
        Err(KvsError::Corrupt { segment, offset: at }) => {
            assert_eq!(segment, 4);
            assert_eq!(at, offset);
        }
        other => panic!("unexpected {:?}", other.map(|_| ())),
    }
}

#[test]
fn compaction_shrinks_the_log_and_keeps_values() {
    let mut store = KvStore::with_config(Config { compaction_threshold: u64::MAX, segment_limit: 64 });
    for round in 0..10 {
        for k in 0..5 {
            store.set(format!("key{}", k), format!("value{}-{}", k, round)).unwrap();
        }
    }
    store.remove("key4".to_owned()).unwrap();
    assert!(store.stale_bytes() > 0);
    let before = total_bytes(&store);
    let last_id = store.segment(store.segment_count() - 1).id;
    store.compact();
    assert!(total_bytes(&store) < before);
    assert_eq!(store.segment_count(), 1);
    assert_eq!(store.segment(0).id, last_id + 1);
    assert_eq!(store.stale_bytes(), 0);
    for k in 0..4 {
        assert_eq!(get(&store, &format!("key{}", k)), Some(format!("value{}-9", k)));
    }
    assert_eq!(get(&store, "key4"), None);
}

#[test]
fn compaction_twice_changes_nothing_visible() {
    let mut store = KvStore::with_config(quiet());
    for i in 0..12 {
        store.set(format!("k{}", i % 4), format!("{}", i)).unwrap();
    }
    store.compact();
    let once = snapshot(&store);
    store.compact();
    let twice = snapshot(&store);
    assert_eq!(once[0].data, twice[0].data);
    for k in 0..4 {
        assert_eq!(get(&store, &format!("k{}", k)), Some(format!("{}", 8 + k)));
    }
}

#[test]
fn compaction_runs_past_the_threshold() {
    let mut store = KvStore::with_config(Config { compaction_threshold: 200, segment_limit: 128 });
    let mut largest = 0;
    for i in 0..200 {
        store.set(format!("k{}", i % 3), format!("value number {}", i)).unwrap();
        assert!(store.stale_bytes() <= 200);
        largest = largest.max(total_bytes(&store));
    }
    assert!(largest < 1000);
    assert_eq!(get(&store, "k0"), Some("value number 198".to_owned()));
    assert_eq!(get(&store, "k1"), Some("value number 199".to_owned()));
    assert_eq!(get(&store, "k2"), Some("value number 197".to_owned()));
}

#[test]
fn stale_bytes_count_replaced_and_removed_records() {
    let mut store = KvStore::with_config(quiet());
    store.set("a".to_owned(), "1".to_owned()).unwrap();
    assert_eq!(store.stale_bytes(), 0);
    store.set("a".to_owned(), "22".to_owned()).unwrap();
    assert_eq!(store.stale_bytes(), 11);
    store.remove("a".to_owned()).unwrap();
    assert_eq!(store.stale_bytes(), 11 + 12 + 10);
}

#[test]
fn segments_rotate_at_the_limit() {
    let mut store = KvStore::with_config(Config { compaction_threshold: u64::MAX, segment_limit: 12 });
    for i in 0..5 {
        store.set(format!("k{}", i), "v".to_owned()).unwrap();
    }
    assert_eq!(store.segment_count(), 5);
    for i in 0..5 {
        assert_eq!(store.segment(i).id, i as u64);
        assert_eq!(get(&store, &format!("k{}", i)), Some("v".to_owned()));
    }
}

fn run_engine<E: KvsEngine>(engine: &mut E, keys: &[&str]) -> Vec<Option<String>> {
    let ops: Vec<(&str, Option<&str>)> = vec![
        ("a", Some("1")),
        ("b", Some("2")),
        ("a", Some("3")),
        ("c", Some("4")),
        ("b", None),
        ("d", None),
        ("c", Some("5")),
        ("e", Some("")),
    ];
    for (key, value) in ops {
        match value {
            Some(v) => engine.set(key.to_owned(), v.to_owned()).unwrap(),
            None => {
                let _ = engine.remove(key.to_owned());
            }
        }
    }
    keys.iter().map(|k| engine.get((*k).to_owned()).unwrap()).collect()
}

#[test]
fn backends_agree_on_the_same_operations() {
    let keys = ["a", "b", "c", "d", "e", "f"];
    let mut log = KvStore::with_config(Config { compaction_threshold: 16, segment_limit: 24 });
    let mut mem = MemStore::new();
    let from_log = run_engine(&mut log, &keys);
    let from_mem = run_engine(&mut mem, &keys);
    assert_eq!(from_log, from_mem);
    assert_eq!(from_log[0], Some("3".to_owned()));
    assert_eq!(from_log[1], None);
    assert_eq!(from_log[4], Some(String::new()));
}

#[test]
fn memory_backend_reports_missing_key() {
    let mut mem = MemStore::new();
    assert!(matches!(mem.remove("x".to_owned()), Err(KvsError::KeyNotFound)));
    mem.set("x".to_owned(), "1".to_owned()).unwrap();
    assert!(mem.remove("x".to_owned()).is_ok());
    assert_eq!(mem.get("x".to_owned()).unwrap(), None);
}

#[test]
fn open_counts_replaced_records_as_stale() {
    let mut data = encode_command(&Command::set("a".to_owned(), "1".to_owned()));
    data.extend(encode_command(&Command::set("a".to_owned(), "2".to_owned())));
    let store = KvStore::open(vec![Segment { id: 0, data }], quiet()).unwrap();
    assert_eq!(store.stale_bytes(), 11);
    assert_eq!(get(&store, "a"), Some("2".to_owned()));
}

#[test]
fn open_counts_removed_records_and_tombstones_as_stale() {
    let mut data = encode_command(&Command::set("a".to_owned(), "1".to_owned()));
    data.extend(encode_command(&Command::set("b".to_owned(), "22".to_owned())));
    data.extend(encode_command(&Command::remove("a".to_owned())));
    let second = encode_command(&Command::remove("zz".to_owned()));
    let store = KvStore::open(
        vec![Segment { id: 2, data }, Segment { id: 5, data: second }],
        quiet(),
    )
    .unwrap();
    assert_eq!(store.stale_bytes(), 11 + 10 + 11);
    assert_eq!(get(&store, "a"), None);
    assert_eq!(get(&store, "b"), Some("22".to_owned()));
    assert_eq!(store.segment(1).id, 5);
}

#[test]
fn reopen_keeps_the_stale_count() {
    let mut store = KvStore::with_config(quiet());
    store.set("a".to_owned(), "1".to_owned()).unwrap();
    store.set("a".to_owned(), "2".to_owned()).unwrap();
    store.set("b".to_owned(), "3".to_owned()).unwrap();
    store.remove("b".to_owned()).unwrap();
    let reopened = KvStore::open(snapshot(&store), quiet()).unwrap();
    assert_eq!(reopened.stale_bytes(), store.stale_bytes());
    assert_eq!(reopened.stale_bytes(), 11 + 11 + 10);
}

#[test]
fn missing_remove_changes_nothing() {
    let mut store = KvStore::with_config(quiet());
    store.set("a".to_owned(), "1".to_owned()).unwrap();
    let before = snapshot(&store);
    let stale = store.stale_bytes();
    assert!(matches!(store.remove("b".to_owned()), Err(KvsError::KeyNotFound)));
    let after = snapshot(&store);
    assert_eq!(before.len(), after.len());
    assert_eq!(before[0].data, after[0].data);
    assert_eq!(store.stale_bytes(), stale);
}

#[test]
fn set_appends_exactly_its_record() {
    let mut store = KvStore::with_config(quiet());
    store.set("k".to_owned(), "v".to_owned()).unwrap();
    let before = store.segment(0).data.clone();
    store.set("key".to_owned(), "value".to_owned()).unwrap();
    let mut expected = before;
    expected.extend(encode_command(&Command::set("key".to_owned(), "value".to_owned())));
    assert_eq!(store.segment(0).data, expected);
}

#[test]
fn compaction_inside_set_resets_the_count() {
    let mut store = KvStore::with_config(Config { compaction_threshold: 20, segment_limit: 1 << 20 });
    store.set("a".to_owned(), "1".to_owned()).unwrap();
    store.set("a".to_owned(), "2".to_owned()).unwrap();
    assert_eq!(store.stale_bytes(), 11);
    assert_eq!(store.segment(0).id, 0);
    store.set("a".to_owned(), "3".to_owned()).unwrap();
    assert_eq!(store.stale_bytes(), 0);
    assert_eq!(store.segment_count(), 1);
    assert_eq!(store.segment(0).id, 1);
    assert_eq!(store.segment(0).data, encode_command(&Command::set("a".to_owned(), "3".to_owned())));
}
