use kvs::record::{read_record_head_buf, read_key_from_header, read_record, Record};
use kvs::storage::{load_storages_sorted, parse_gen, storage_name_from_gen, Storage};
use kvs::{BatchConfig, Config, IndexType, KvError, RecordType};

#[test]
fn encode_set_record_bytes() {
    let r = Record::new_set(b"k".to_vec(), b"v".to_vec());
    assert_eq!(r.encode().unwrap(), vec![1, 1, 1, 107, 118, 125, 83, 181, 154]);
    assert_eq!(r.encoded_len(), 9);
    assert_eq!(r.target_crc(), u32::from_be_bytes([125, 83, 181, 154]));
}

#[test]
fn encode_remove_record_bytes() {
    let r = Record::new_remove(b"k".to_vec());
    assert_eq!(r.encode().unwrap(), vec![2, 1, 0, 107, 80, 239, 197, 112]);
}

#[test]
fn varint_lengths_in_header() {
    let key = vec![7u8; 300];
    let value = vec![9u8; 128];
    let bytes = Record::new_set(key.clone(), value.clone()).encode().unwrap();
    assert_eq!(&bytes[..5], &[1, 0xac, 0x02, 0x80, 0x01]);
    assert_eq!(bytes.len(), 1 + 2 + 2 + 300 + 128 + 4);
    let h = read_record_head_buf(&bytes, 0).unwrap();
    assert_eq!(h.key_size, 300);
    assert_eq!(h.value_size, 128);
    assert_eq!(h.get_header_len(), 5);
    assert_eq!(h.encoded_len(), bytes.len() as u64);
    assert_eq!(read_key_from_header(&bytes, 0, &h).unwrap(), key);
    let rec = read_record(&bytes, 0).unwrap();
    assert_eq!(rec.key, key);
    assert_eq!(rec.value, value);
}

#[test]
fn record_round_trip_at_offset() {
    let mut seg = Record::new_set(b"first".to_vec(), b"1".to_vec()).encode().unwrap();
    let at = seg.len() as u64;
    seg.extend(Record::new_set(b"second".to_vec(), Vec::new()).encode().unwrap());
    let rec = read_record(&seg, at).unwrap();
    assert_eq!(rec.key, b"second".to_vec());
    assert!(rec.value.is_empty());
    assert_eq!(rec.record_type, RecordType::Normal);
}

#[test]
fn every_checksum_byte_is_checked() {
    let good = Record::new_set(b"key".to_vec(), b"value".to_vec()).encode().unwrap();
    for j in good.len() - 4..good.len() {
        let mut bad = good.clone();
        bad[j] ^= 0x01;
        assert!(matches!(read_record(&bad, 0), Err(KvError::InvalidCrc)));
    }
    let mut bad = good.clone();
    bad[5] ^= 0x20;
    assert!(matches!(read_record(&bad, 0), Err(KvError::InvalidCrc)));
}

#[test]
fn header_errors() {
    assert!(matches!(read_record_head_buf(&[0u8; 0], 0), Err(KvError::ReadEOF)));
    assert!(matches!(read_record_head_buf(&[0, 1, 1], 0), Err(KvError::ReadEOF)));
    assert!(matches!(read_record_head_buf(&[3, 1, 1], 0), Err(KvError::ReadEOF)));
    assert!(matches!(read_record_head_buf(&[1, 0, 1, 5], 0), Err(KvError::InvalidKey)));
    assert!(matches!(
        read_record_head_buf(&[1, 0x80, 0x80, 0x80, 0x80, 0x80, 0, 0], 0),
        Err(KvError::DecodeError)
    ));
    assert!(matches!(read_record_head_buf(&[1, 1, 0, 1], 7), Err(KvError::ReadEOF)));
    let truncated = &Record::new_set(b"k".to_vec(), b"v".to_vec()).encode().unwrap()[..6];
    assert!(matches!(read_record(truncated, 0), Err(KvError::ReadEOF)));
}

#[test]
fn record_type_from_byte() {
    assert_eq!(RecordType::from(1u8), RecordType::Normal);
    assert_eq!(RecordType::from(2u8), RecordType::Remove);
    assert_eq!(RecordType::from(0u8), RecordType::UnexpectCommand);
    assert_eq!(RecordType::from(9u8), RecordType::UnexpectCommand);
    assert_eq!(RecordType::Remove.to_u8(), 2);
}

#[test]
fn segment_names() {
    assert_eq!(storage_name_from_gen(0), "000000000.storage");
    assert_eq!(storage_name_from_gen(42), "000000042.storage");
    assert_eq!(storage_name_from_gen(999999999), "999999999.storage");
    assert_eq!(storage_name_from_gen(1234567890), "1234567890.storage");
    assert_eq!(parse_gen("000000042.storage"), Some(42));
    assert_eq!(parse_gen("42.storage"), None);
    assert_eq!(parse_gen("000000042.storagf"), None);
    assert_eq!(parse_gen("00000004x.storage"), None);
    assert_eq!(parse_gen("1234567890.storage"), None);
    assert!(matches!(Storage::new("notes.txt"), Err(KvError::InvalidPath)));
    let s = Storage::new("000000007.storage").unwrap();
    assert_eq!((s.gen, s.offset), (7, 0));
}

#[test]
fn segments_sorted_by_generation() {
    let names = vec![
        String::from("000000002.storage"),
        String::from("readme"),
        String::from("000000000.storage"),
        String::from("000000010.storage"),
        String::from("000000001.storage"),
    ];
    let gens: Vec<u32> = load_storages_sorted(&names).iter().map(|s| s.gen).collect();
    assert_eq!(gens, vec![0, 1, 2, 10]);
}

#[test]
fn storage_offsets() {
    let mut s = Storage::init_zero();
    assert_eq!((s.gen, s.get_offset()), (0, 0));
    s.write(31);
    s.write(9);
    assert_eq!(s.get_offset(), 40);
    s.set_offset(7);
    assert_eq!(s.get_offset(), 7);
}

#[test]
fn config_defaults() {
    let c = Config::new(String::from("/data"));
    assert_eq!(c.dir_path, "/data");
    assert_eq!(c.storage_size, 64 * 1024 * 1024);
    assert_eq!(c.index_type, IndexType::BTree);
    assert!(!c.sync_write);
    let b = BatchConfig::default();
    assert_eq!(b.max_batch_num, 100);
    assert!(b.sycn_write);
}
