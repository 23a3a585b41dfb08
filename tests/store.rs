use kvs::{decode_record, decode_value, encode_remove, encode_set};
use kvs::{Commands, KvErr, KvStore, COMPACTION_THRESHOLD};
use std::collections::BTreeMap;

/// Segments held in memory, keyed by id.
struct Engine {
    segs: BTreeMap<u64, Vec<u8>>,
    store: KvStore,
}

fn open(segs: BTreeMap<u64, Vec<u8>>) -> Engine {
    let listed: Vec<(u64, Vec<u8>)> = segs.iter().map(|(id, b)| (*id, b.clone())).collect();
    let mut store = match KvStore::recover(&listed) {
        Ok(s) => s,
        Err(_) => panic!("corrupt segment"),
    };
    let ids: Vec<u64> = segs.keys().cloned().collect();
    let due = store.open(&ids);
    let mut e = Engine { segs, store };
    e.segs.entry(e.store.active_segment()).or_default();
    if due {
        e.compact();
    }
    e
}

impl Engine {
    fn compact(&mut self) {
        let old = std::mem::take(&mut self.segs);
        let (n, plan) = self.store.compact().expect("ids fit");
        let mut data = Vec::new();
        for e in plan.iter() {
            let seg = &old[&e.file_id];
            data.extend_from_slice(&seg[e.value_pos as usize..(e.value_pos + e.value_sz) as usize]);
        }
        self.segs.insert(n, data);
        self.segs.insert(n + 1, Vec::new());
    }

    fn set(&mut self, k: &str, v: &str) {
        let rec = encode_set(&k.to_string(), &v.to_string()).ok().unwrap();
        let id = self.store.active_segment();
        self.segs.get_mut(&id).unwrap().extend_from_slice(&rec);
        if self.store.set(k.to_string(), rec.len() as u64) {
            self.compact();
        }
    }

    fn remove(&mut self, k: &str) -> Result<(), KvErr> {
        let key = k.to_string();
        if self.store.get(&key).is_none() {
            return Err(KvErr::KeyNotFound);
        }
        let rec = encode_remove(&key)?;
        let id = self.store.active_segment();
        self.segs.get_mut(&id).unwrap().extend_from_slice(&rec);
        if self.store.remove(&key, rec.len() as u64)? {
            self.compact();
        }
        Ok(())
    }

    fn get(&self, k: &str) -> Option<String> {
        let e = self.store.get(&k.to_string())?;
        let seg = &self.segs[&e.file_id];
        let rec = &seg[e.value_pos as usize..(e.value_pos + e.value_sz) as usize];
        match decode_value(rec) {
            Ok(v) => Some(v),
            Err(_) => panic!("corrupt record"),
        }
    }

    fn reopen(self) -> Engine {
        open(self.segs)
    }

    fn total_bytes(&self) -> usize {
        self.segs.values().map(|s| s.len()).sum()
    }
}

fn fresh() -> Engine {
    open(BTreeMap::new())
}

#[test]
fn set_get_remove_basic() {
    let mut e = fresh();
    e.set("k", "v1");
    assert_eq!(e.get("k"), Some("v1".to_string()));
    e.set("k", "v2");
    assert_eq!(e.get("k"), Some("v2".to_string()));
    assert!(e.remove("k").is_ok());
    assert_eq!(e.get("k"), None);
}

#[test]
fn reopen_keeps_values() {
    let mut e = fresh();
    e.set("a", "1");
    e.set("b", "2");
    let e = e.reopen();
    assert_eq!(e.get("a"), Some("1".to_string()));
    assert_eq!(e.get("b"), Some("2".to_string()));
}

#[test]
fn compaction_leaves_two_segments() {
    assert_eq!(COMPACTION_THRESHOLD, 1024);
    let mut e = fresh();
    let x50 = "x".repeat(50);
    for i in 0..200 {
        e.set(&format!("key_{}", i), &x50);
    }
    for i in 0..200 {
        e.set(&format!("key_{}", i), &format!("new_{}", i));
    }
    assert!(e.segs.len() <= 2);
    for i in 0..200 {
        assert_eq!(e.get(&format!("key_{}", i)), Some(format!("new_{}", i)));
    }
    let e = e.reopen();
    for i in 0..200 {
        assert_eq!(e.get(&format!("key_{}", i)), Some(format!("new_{}", i)));
    }
}

#[test]
fn remove_absent_key_on_fresh_store() {
    let mut e = fresh();
    assert!(matches!(e.remove("missing"), Err(KvErr::KeyNotFound)));
    assert_eq!(e.segs.len(), 1);
    assert_eq!(e.segs[&0].len(), 0);
}

#[test]
fn tombstone_survives_reopen() {
    let mut e = fresh();
    e.set("k", "v");
    assert!(e.remove("k").is_ok());
    let e = e.reopen();
    assert_eq!(e.get("k"), None);
}

#[test]
fn large_value_round_trip() {
    let mut e = fresh();
    let v: String = (0..65536u32).map(|i| char::from((i % 256) as u8)).collect();
    e.set("k", &v);
    assert_eq!(e.get("k"), Some(v.clone()));
    let e = e.reopen();
    assert_eq!(e.get("k"), Some(v));
}

#[test]
fn durability_across_reopen() {
    let mut e = fresh();
    let mut model: BTreeMap<String, String> = BTreeMap::new();
    for i in 0..60u32 {
        let k = format!("k{}", i % 7);
        if i % 5 == 3 {
            let r = e.remove(&k);
            assert_eq!(r.is_ok(), model.remove(&k).is_some());
        } else {
            let v = format!("value {} \"quoted\" \\ {}", i, i * 3);
            e.set(&k, &v);
            model.insert(k, v);
        }
    }
    let e = e.reopen();
    for i in 0..7 {
        let k = format!("k{}", i);
        assert_eq!(e.get(&k), model.get(&k).cloned());
    }
}

#[test]
fn remove_absent_writes_nothing() {
    let mut e = fresh();
    e.set("a", "1");
    let before = e.total_bytes();
    let dead = e.store.dead();
    assert!(matches!(e.remove("b"), Err(KvErr::KeyNotFound)));
    assert_eq!(e.total_bytes(), before);
    assert_eq!(e.store.dead(), dead);
}

#[test]
fn compaction_keeps_mapping_and_clears_dead_bytes() {
    let mut e = fresh();
    e.set("a", "1");
    e.set("a", "2");
    e.set("b", "3");
    assert!(e.remove("b").is_ok());
    e.set("c", "4");
    let live = e.store.get(&"a".to_string()).unwrap().value_sz
        + e.store.get(&"c".to_string()).unwrap().value_sz;
    assert!(e.store.dead() > 0);
    e.compact();
    assert_eq!(e.store.dead(), 0);
    assert_eq!(e.get("a"), Some("2".to_string()));
    assert_eq!(e.get("b"), None);
    assert_eq!(e.get("c"), Some("4".to_string()));
    assert_eq!(e.total_bytes() as u64, live);
    assert_eq!(e.store.active_len(), 0);
}

#[test]
fn recovery_is_idempotent() {
    let mut e = fresh();
    e.set("a", "1");
    e.set("b", "2");
    e.set("a", "3");
    let e1 = e.reopen();
    let segs = e1.segs.clone();
    let e2 = open(segs);
    for k in ["a", "b", "c"] {
        assert_eq!(e1.store.get(&k.to_string()), e2.store.get(&k.to_string()));
        assert_eq!(e1.get(k), e2.get(k));
    }
    assert_eq!(e1.store.dead(), e2.store.dead());
}

#[test]
fn crash_in_compaction_keeps_mapping() {
    let mut e = fresh();
    e.set("a", "1");
    e.set("a", "2");
    e.set("b", "3");
    // Copy the live records to a new segment but keep the old ones.
    let mut segs = e.segs.clone();
    let n = e.store.active_segment() + 1;
    let mut data = Vec::new();
    for k in ["a", "b"] {
        let en = e.store.get(&k.to_string()).unwrap();
        let seg = &segs[&en.file_id];
        data.extend_from_slice(&seg[en.value_pos as usize..(en.value_pos + en.value_sz) as usize]);
    }
    segs.insert(n, data);
    let r = open(segs);
    assert_eq!(r.get("a"), Some("2".to_string()));
    assert_eq!(r.get("b"), Some("3".to_string()));
}

#[test]
fn set_record_bytes() {
    let rec = encode_set(&"k\"1".to_string(), &"v".to_string()).ok().unwrap();
    assert_eq!(rec, br#"{"Set":{"key":"k\"1","value":"v"}}"#.to_vec());
    let rec = encode_remove(&"k".to_string()).ok().unwrap();
    assert_eq!(rec, br#"{"Rm":{"key":"k"}}"#.to_vec());
}

#[test]
fn decode_reads_back_records() {
    let mut log = encode_set(&"a\\b".to_string(), &"line\nnext".to_string()).ok().unwrap();
    let first = log.len();
    log.extend(encode_remove(&"a\\b".to_string()).ok().unwrap());
    match decode_record(&log, 0) {
        Ok((Commands::Put { key, value }, end)) => {
            assert_eq!(key, "a\\b");
            assert_eq!(value, "line\nnext");
            assert_eq!(end, first);
        }
        _ => panic!("expected a set record"),
    }
    match decode_record(&log, first) {
        Ok((Commands::Rm { key }, end)) => {
            assert_eq!(key, "a\\b");
            assert_eq!(end, log.len());
        }
        _ => panic!("expected a remove record"),
    }
}

#[test]
fn decode_errors() {
    assert!(matches!(decode_record(b"{\"Nope\":1}", 0), Err(KvErr::Corrupt)));
    assert!(matches!(decode_record(b"{\"Set\":{\"key\":\"a", 0), Err(KvErr::Corrupt)));
    let rm = encode_remove(&"k".to_string()).ok().unwrap();
    assert!(matches!(decode_value(&rm), Err(KvErr::UnknownCommand)));
    let mut set = encode_set(&"k".to_string(), &"v".to_string()).ok().unwrap();
    assert_eq!(decode_value(&set).ok(), Some("v".to_string()));
    set.push(b' ');
    assert!(matches!(decode_value(&set), Err(KvErr::Corrupt)));
    assert!(matches!(
        decode_record(b"{\"Rm\":{\"key\":\"\\u00zz\"}}", 0),
        Err(KvErr::SerializeErr(_))
    ));
}

#[test]
fn dead_bytes_accounting() {
    let mut s = KvStore::new();
    assert!(!s.set("a".to_string(), 100));
    assert_eq!(s.active_len(), 100);
    assert!(!s.set("a".to_string(), 50));
    assert_eq!(s.dead(), 100);
    assert_eq!(s.remove(&"a".to_string(), 30).ok(), Some(false));
    assert_eq!(s.dead(), 180);
    assert_eq!(s.active_len(), 180);
    assert!(!s.set("b".to_string(), 2000));
    assert!(s.set("b".to_string(), 10));
    assert_eq!(s.dead(), 2180);
}

#[test]
fn open_picks_fresh_segment() {
    let mut s = KvStore::new();
    assert!(!s.open(&vec![3, 1, 7]));
    assert_eq!(s.active_segment(), 8);
    let mut s = KvStore::new();
    s.open(&vec![]);
    assert_eq!(s.active_segment(), 0);
}

#[test]
fn frames_records() {
    let rec = kvs::frame_set(b"\"a\"".to_vec(), b"\"b\"".to_vec());
    assert_eq!(rec, br#"{"Set":{"key":"a","value":"b"}}"#.to_vec());
    let rec = kvs::frame_rm(b"\"a\"".to_vec());
    assert_eq!(rec, br#"{"Rm":{"key":"a"}}"#.to_vec());
}

#[test]
fn replay_segment_rejects_garbage() {
    let mut s = KvStore::new();
    let mut seg = encode_set(&"a".to_string(), &"1".to_string()).ok().unwrap();
    let first = seg.len() as u64;
    assert!(s.replay_segment(4, &seg).is_ok());
    let e = s.get(&"a".to_string()).unwrap();
    assert_eq!((e.file_id, e.value_pos, e.value_sz), (4, 0, first));
    seg.extend_from_slice(b"xx");
    let mut s = KvStore::new();
    assert!(matches!(s.replay_segment(4, &seg), Err(KvErr::Corrupt)));
}

#[test]
fn recover_counts_dead_bytes() {
    let a1 = encode_set(&"a".to_string(), &"1".to_string()).ok().unwrap();
    let a2 = encode_set(&"a".to_string(), &"2".to_string()).ok().unwrap();
    let rm = encode_remove(&"a".to_string()).ok().unwrap();
    let mut seg0 = a1.clone();
    seg0.extend_from_slice(&a2);
    let s = match KvStore::recover(&vec![(0, seg0.clone()), (1, rm.clone())]) {
        Ok(s) => s,
        Err(_) => panic!("recover failed"),
    };
    assert!(s.get(&"a".to_string()).is_none());
    assert_eq!(s.dead(), (a1.len() + a2.len() + rm.len()) as u64);
    let s = match KvStore::recover(&vec![(0, seg0)]) {
        Ok(s) => s,
        Err(_) => panic!("recover failed"),
    };
    let e = s.get(&"a".to_string()).unwrap();
    assert_eq!((e.file_id, e.value_pos, e.value_sz), (0, a1.len() as u64, a2.len() as u64));
    assert_eq!(s.dead(), a1.len() as u64);
}

#[test]
fn recover_empty_directory() {
    let s = match KvStore::recover(&Vec::new()) {
        Ok(s) => s,
        Err(_) => panic!("recover failed"),
    };
    assert_eq!(s.dead(), 0);
    assert_eq!(s.active_segment(), 0);
    assert!(s.get(&"k".to_string()).is_none());
}
