use zawgl::store::dynamic_store::DynamicStore;
use zawgl::store::records::{dr_from_bytes, dr_to_bytes, DynamicStoreRecord};

#[test]
fn test_dyn_short() {
    let file = "test_dyn_store/test_dyn_short.db";
    let mut ds = DynamicStore::new(&file);
    let short = b"qsdfqsdfqsdf";
    let id = ds.save_data(short).unwrap();
    let data = ds.load_data(id).unwrap();
    assert_eq!(&data[0..12], short);
}

#[test]
fn test_dyn_long() {
    let file = "test_dyn_store/test_dyn_long.db";
    let mut ds = DynamicStore::new(&file);
    for i in 0..10 {
        let long = ["qsdfqsdfqsdlkqshdfhljbqlcznzelfnqelincqzlnfqzlnec
            qfqsdfqsdfqsdlkqshdfhljbqlcznzelfnqelincqzlnfqzlnecqfqsdfqsdfqsdlkqsh
            dfhljbqlcznzelfnqelincqzlnfqzlnecqfqsdfqsdfqsdlkqshdfhljbqlcznzelfnqel", &i.to_string()].concat();
        let input = long.clone();
        let id = ds.save_data(&long.into_bytes()).unwrap();
        let load = ds.load_string(id).unwrap();
        assert_eq!(input, load);
    }
}

#[test]
fn save_data_chains_records_last_chunk_first() {
    let mut ds = DynamicStore::new("chain.db");
    let data: Vec<u8> = (0..250u32).map(|i| (i % 200 + 1) as u8).collect();
    let id = ds.save_data(&data).unwrap();
    // 250 bytes take three records: the last chunk is written first.
    assert_eq!(id, 2);
    let first = ds.load(2).unwrap();
    assert!(first.in_use);
    assert!(first.has_next);
    assert_eq!(first.next, 1);
    assert_eq!(&first.data[..], &data[0..120]);
    let second = ds.load(1).unwrap();
    assert!(second.has_next);
    assert_eq!(second.next, 0);
    assert_eq!(&second.data[..], &data[120..240]);
    let last = ds.load(0).unwrap();
    assert!(!last.has_next);
    assert_eq!(&last.data[0..10], &data[240..250]);
    assert!(last.data[10..].iter().all(|b| *b == 0));
}

#[test]
fn load_data_pads_with_zeros() {
    let mut ds = DynamicStore::new("pad.db");
    let data = vec![7u8; 120];
    let id = ds.save_data(&data).unwrap();
    // A length that is a multiple of 120 gets an extra, empty record.
    assert_eq!(id, 1);
    let loaded = ds.load_data(id).unwrap();
    assert_eq!(loaded.len(), 240);
    assert_eq!(&loaded[0..120], &data[..]);
    assert!(loaded[120..].iter().all(|b| *b == 0));
}

#[test]
fn empty_data_is_one_empty_record() {
    let mut ds = DynamicStore::new("empty.db");
    let id = ds.save_data(&[]).unwrap();
    assert_eq!(id, 0);
    assert_eq!(ds.load_data(id).unwrap(), vec![0u8; 120]);
    assert_eq!(ds.load_string(id).unwrap(), "");
}

#[test]
fn earlier_values_survive_later_saves() {
    let mut ds = DynamicStore::new("many.db");
    let a = ds.save_data(b"first value").unwrap();
    let b = ds.save_data(&vec![3u8; 300]).unwrap();
    let c = ds.save_data(b"third").unwrap();
    assert_eq!(ds.load_string(a).unwrap(), "first value");
    assert_eq!(&ds.load_data(b).unwrap()[0..300], &vec![3u8; 300][..]);
    assert_eq!(ds.load_string(c).unwrap(), "third");
}

#[test]
fn load_of_a_missing_record_is_none() {
    let mut ds = DynamicStore::new("missing.db");
    assert!(ds.load(0).is_none());
    assert!(ds.load_data(5).is_none());
    assert!(ds.load_string(5).is_none());
}

#[test]
fn broken_chain_loads_nothing() {
    let mut ds = DynamicStore::new("broken.db");
    let rec = DynamicStoreRecord { in_use: true, has_next: true, data: [1u8; 120], next: 9 };
    let id = ds.create(&rec).unwrap();
    assert_eq!(id, 0);
    assert!(ds.load_data(id).is_none());
}

#[test]
fn load_string_stops_at_first_zero_and_checks_utf8() {
    let mut ds = DynamicStore::new("strings.db");
    let id = ds.save_data(b"abc\0def").unwrap();
    assert_eq!(ds.load_string(id).unwrap(), "abc");
    let bad = ds.save_data(&[0xff, 0xfe, 0x41]).unwrap();
    assert!(ds.load_string(bad).is_none());
    let word = "héllo wörld";
    let uid = ds.save_data(word.as_bytes()).unwrap();
    assert_eq!(ds.load_string(uid).unwrap(), word);
}

#[test]
fn sync_hands_out_each_record_once() {
    let mut ds = DynamicStore::new("sync.db");
    assert!(ds.sync().is_empty());
    let r = DynamicStoreRecord { in_use: true, has_next: false, data: [5u8; 120], next: 0 };
    ds.create(&r).unwrap();
    let pending = ds.sync();
    assert_eq!(pending, dr_to_bytes(&r));
    assert!(ds.sync().is_empty());
    ds.save_data(b"x").unwrap();
    assert_eq!(ds.sync().len(), 129);
    assert_eq!(ds.file(), "sync.db");
}

#[test]
fn record_bytes_roundtrip() {
    let r = DynamicStoreRecord { in_use: true, has_next: true, data: [9u8; 120], next: 0x0102_0304_0506_0708 };
    let bytes = dr_to_bytes(&r);
    assert_eq!(bytes.len(), 129);
    assert_eq!(bytes[0], 3);
    assert_eq!(&bytes[1..9], &[8, 7, 6, 5, 4, 3, 2, 1]);
    let back = dr_from_bytes(&bytes);
    assert!(back.in_use && back.has_next);
    assert_eq!(back.next, r.next);
    assert_eq!(back.data, r.data);
    let free = DynamicStoreRecord { in_use: false, has_next: false, data: [0u8; 120], next: 0 };
    assert_eq!(dr_to_bytes(&free)[0], 0);
}

#[test]
fn reopening_the_synced_bytes_gives_the_same_values() {
    let mut ds = DynamicStore::new("reopen.db");
    let a = ds.save_data(b"kept across a restart").unwrap();
    let mut file = ds.sync();
    let b = ds.save_data(&vec![42u8; 130]).unwrap();
    file.extend(ds.sync());
    assert_eq!(file.len(), 3 * 129);
    let mut reopened = DynamicStore::open("reopen.db", &file).unwrap();
    assert_eq!(reopened.load_string(a).unwrap(), "kept across a restart");
    assert_eq!(&reopened.load_data(b).unwrap()[0..130], &vec![42u8; 130][..]);
    assert!(reopened.sync().is_empty());
    assert!(DynamicStore::open("bad.db", &file[0..100]).is_none());
    assert!(DynamicStore::open("empty.db", &[]).unwrap().load(0).is_none());
}

#[test]
fn reopening_after_syncs_gives_the_values_back() {
    let mut ds = DynamicStore::new("reopen.db");
    let short = ds.save_data(b"short value").unwrap();
    let mut file = ds.sync();
    let long_value = vec![7u8; 300];
    let long = ds.save_data(&long_value).unwrap();
    file.extend(ds.sync());
    let mut reopened = DynamicStore::open("reopen.db", &file).unwrap();
    assert_eq!(&reopened.load_data(short).unwrap()[..11], b"short value");
    assert_eq!(&reopened.load_data(long).unwrap()[..300], &long_value[..]);
    assert!(reopened.sync().is_empty());
}

#[test]
fn a_chain_that_loops_loads_nothing() {
    let mut ds = DynamicStore::new("loop.db");
    let r = DynamicStoreRecord { in_use: true, has_next: true, data: [b'a'; 120], next: 1 };
    let back = DynamicStoreRecord { in_use: true, has_next: true, data: [b'b'; 120], next: 0 };
    ds.create(&r).unwrap();
    ds.create(&back).unwrap();
    assert!(ds.load_data(0).is_none());
    assert!(ds.load_string(1).is_none());
}

#[test]
fn pending_bytes_are_kept_until_marked_synced() {
    let mut ds = DynamicStore::new("two_phase.db");
    ds.save_data(b"abc").unwrap();
    assert_eq!(ds.pending().len(), 129);
    assert_eq!(ds.pending().len(), 129);
    ds.mark_synced();
    assert!(ds.pending().is_empty());
    assert!(ds.sync().is_empty());
}
