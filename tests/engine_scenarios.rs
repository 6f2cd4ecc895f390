use std::collections::BTreeMap;

use kvs::engine::{Append, EngineState};
use kvs::record::read_record;
use kvs::storage::{load_storages_sorted, storage_name_from_gen};
use kvs::{Config, IteratorConfig, KvError};

/// Drives the engine's bookkeeping over segment files held in memory, the
/// way a file-backed engine does over a directory.
struct Mem {
    storage_size: u64,
    files: BTreeMap<String, Vec<u8>>,
    state: EngineState,
}

fn config(storage_size: u64) -> Config {
    let mut c = Config::new(String::from("mem"));
    c.storage_size = storage_size;
    c
}

fn open(storage_size: u64, mut files: BTreeMap<String, Vec<u8>>) -> Mem {
    let names: Vec<String> = files.keys().cloned().collect();
    let storages = load_storages_sorted(&names);
    let contents: Vec<Vec<u8>> = storages
        .iter()
        .map(|s| files[&storage_name_from_gen(s.gen)].clone())
        .collect();
    let state = EngineState::open(&config(storage_size), storages, &contents).unwrap();
    files.entry(storage_name_from_gen(state.active.gen)).or_default();
    Mem { storage_size, files, state }
}

impl Mem {
    fn append(&mut self, a: Append) -> Result<(), KvError> {
        if a.rollover {
            self.state.roll_over();
            self.files.insert(storage_name_from_gen(self.state.active.gen), Vec::new());
        }
        let name = storage_name_from_gen(self.state.active.gen);
        self.files.get_mut(&name).unwrap().extend_from_slice(&a.data);
        self.state.commit(&a).unwrap();
        Ok(())
    }

    fn set(&mut self, k: &[u8], v: &[u8]) -> Result<(), KvError> {
        let a = self.state.prepare_set(k.to_vec(), v.to_vec())?;
        self.append(a)
    }

    fn delete(&mut self, k: &[u8]) -> Result<(), KvError> {
        let a = self.state.prepare_delete(k.to_vec())?;
        self.append(a)
    }

    fn get(&self, k: &[u8]) -> Result<Vec<u8>, KvError> {
        let pos = self.state.locate(k)?;
        let data = &self.files[&storage_name_from_gen(pos.gen)];
        Ok(read_record(data, pos.offset)?.value)
    }

    fn reopen(self) -> Mem {
        open(self.storage_size, self.files)
    }

    fn scan(&self, prefix: &[u8], reverse: bool) -> Vec<Vec<u8>> {
        let mut it = self.state.iter(IteratorConfig { prefix: prefix.to_vec(), reverse });
        let mut keys = Vec::new();
        while let Some((k, _)) = it.next() {
            keys.push(k);
        }
        keys
    }
}

fn fresh(storage_size: u64) -> Mem {
    open(storage_size, BTreeMap::new())
}

#[test]
fn empty_open() {
    let m = fresh(1024);
    assert_eq!(m.files.len(), 1);
    assert_eq!(m.files["000000000.storage"].len(), 0);
    assert_eq!(m.state.active.gen, 0);
    assert!(matches!(m.get(b"x"), Err(KvError::InvalidKey)));
}

#[test]
fn basic_put_get() {
    let mut m = fresh(1024);
    m.set(b"k", b"v").unwrap();
    assert_eq!(m.get(b"k").unwrap(), b"v".to_vec());
    let m = m.reopen();
    assert_eq!(m.get(b"k").unwrap(), b"v".to_vec());
}

#[test]
fn delete_persistence() {
    let mut m = fresh(1024);
    m.set(b"k", b"v").unwrap();
    m.delete(b"k").unwrap();
    assert!(matches!(m.get(b"k"), Err(KvError::InvalidKey)));
    let m = m.reopen();
    assert_eq!(m.files["000000000.storage"].len(), 9 + 8);
    assert!(matches!(m.get(b"k"), Err(KvError::InvalidKey)));
}

#[test]
fn rollover_keeps_every_key() {
    let mut m = fresh(256);
    let key = |i: u32| format!("k{:03}", i).into_bytes();
    let value = |i: u32| format!("value-{:014}", i).into_bytes();
    for i in 0..20 {
        assert_eq!(key(i).len(), 4);
        assert_eq!(value(i).len(), 20);
        m.set(&key(i), &value(i)).unwrap();
    }
    assert!(m.files.len() >= 2);
    for (g, name) in m.files.keys().enumerate() {
        assert_eq!(*name, storage_name_from_gen(g as u32));
        assert!(m.files[name].len() <= 256);
    }
    for i in 0..20 {
        assert_eq!(m.get(&key(i)).unwrap(), value(i));
    }
    let m = m.reopen();
    assert!(m.files.len() >= 2);
    for i in 0..20 {
        assert_eq!(m.get(&key(i)).unwrap(), value(i));
    }
}

#[test]
fn crc_corruption() {
    let mut m = fresh(1024);
    m.set(b"k", b"v").unwrap();
    let seg = m.files.get_mut("000000000.storage").unwrap();
    let last = seg.len() - 1;
    seg[last] ^= 0xff;
    let m = m.reopen();
    assert!(matches!(m.get(b"k"), Err(KvError::InvalidCrc)));
}

#[test]
fn ordered_scan() {
    let mut m = fresh(1024);
    m.set(b"b", b"2").unwrap();
    m.set(b"a", b"1").unwrap();
    m.set(b"c", b"3").unwrap();
    assert_eq!(m.scan(b"", false), vec![b"a".to_vec(), b"b".to_vec(), b"c".to_vec()]);
}

#[test]
fn scan_reverse_and_prefix() {
    let mut m = fresh(1024);
    for k in [&b"ab"[..], b"b", b"aa", b"ba", b"a"] {
        m.set(k, b"x").unwrap();
    }
    assert_eq!(
        m.scan(b"", true),
        vec![b"ba".to_vec(), b"b".to_vec(), b"ab".to_vec(), b"aa".to_vec(), b"a".to_vec()]
    );
    assert_eq!(m.scan(b"a", false), vec![b"a".to_vec(), b"aa".to_vec(), b"ab".to_vec()]);
    assert_eq!(m.scan(b"b", true), vec![b"ba".to_vec(), b"b".to_vec()]);
}

#[test]
fn scan_seek() {
    let mut m = fresh(1024);
    for k in [&b"a"[..], b"c", b"e"] {
        m.set(k, b"x").unwrap();
    }
    let mut it = m.state.iter(IteratorConfig { prefix: Vec::new(), reverse: false });
    it.seek(b"b".to_vec());
    assert_eq!(it.next().unwrap().0, b"c".to_vec());
    it.seek(b"c".to_vec());
    assert_eq!(it.next().unwrap().0, b"c".to_vec());
    it.rewind();
    assert_eq!(it.next().unwrap().0, b"a".to_vec());
    let mut rev = m.state.iter(IteratorConfig { prefix: Vec::new(), reverse: true });
    rev.seek(b"d".to_vec());
    assert_eq!(rev.next().unwrap().0, b"c".to_vec());
    rev.seek(b"z".to_vec());
    assert_eq!(rev.next().unwrap().0, b"e".to_vec());
    it.seek(b"f".to_vec());
    assert!(it.next().is_none());
}

#[test]
fn empty_key_refused() {
    let mut m = fresh(1024);
    assert!(matches!(m.set(b"", b"v"), Err(KvError::InvalidKey)));
    assert!(matches!(m.get(b""), Err(KvError::InvalidKey)));
    assert!(matches!(m.delete(b""), Err(KvError::InvalidKey)));
    assert_eq!(m.files["000000000.storage"].len(), 0);
}

#[test]
fn overwrite_latest_wins() {
    let mut m = fresh(1024);
    m.set(b"k", b"one").unwrap();
    m.set(b"k", b"two").unwrap();
    assert_eq!(m.get(b"k").unwrap(), b"two".to_vec());
    let m = m.reopen();
    assert_eq!(m.get(b"k").unwrap(), b"two".to_vec());
}

#[test]
fn delete_then_set_again() {
    let mut m = fresh(1024);
    m.set(b"k", b"v").unwrap();
    m.delete(b"k").unwrap();
    assert!(matches!(m.get(b"k"), Err(KvError::InvalidKey)));
    assert!(matches!(m.delete(b"k"), Err(KvError::InvalidKey)));
    m.set(b"k", b"w").unwrap();
    assert_eq!(m.get(b"k").unwrap(), b"w".to_vec());
}

#[test]
fn reopen_restores_state_exactly() {
    let mut m = fresh(64);
    m.set(b"a", b"1").unwrap();
    m.set(b"b", b"2").unwrap();
    m.delete(b"a").unwrap();
    m.set(b"c", b"3").unwrap();
    m.set(b"b", b"22").unwrap();
    let before = m.state.index.items.iter().map(|(k, p)| (k.clone(), *p)).collect::<Vec<_>>();
    let offset = m.state.active.offset;
    let m = m.reopen();
    let after = m.state.index.items.iter().map(|(k, p)| (k.clone(), *p)).collect::<Vec<_>>();
    assert_eq!(before, after);
    assert_eq!(m.state.active.offset, offset);
    assert_eq!(m.scan(b"", false), vec![b"b".to_vec(), b"c".to_vec()]);
}

#[test]
fn torn_tail_is_dropped() {
    let mut m = fresh(1024);
    m.set(b"k", b"v").unwrap();
    m.set(b"j", b"w").unwrap();
    let seg = m.files.get_mut("000000000.storage").unwrap();
    seg.truncate(9 + 4);
    let m = m.reopen();
    assert_eq!(m.get(b"k").unwrap(), b"v".to_vec());
    assert!(matches!(m.get(b"j"), Err(KvError::InvalidKey)));
    assert_eq!(m.state.active.offset, 9);
}
