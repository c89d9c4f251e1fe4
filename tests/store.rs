use std::collections::HashMap;

use kvs::command::{Command, CommandPos};
use kvs::error::KvsError;
use kvs::names::{log_path, parse_gen_name, sorted_gen_list};
use kvs::store::{KvStore, COMPACTION_THRESHOLD};

/// Log files held in memory, driven the way a file-backed store drives the engine.
struct Disk {
    files: HashMap<u64, Vec<u8>>,
}

struct Handle {
    engine: KvStore,
}

fn decode(bytes: &[u8]) -> Command {
    let v: serde_json::Value = serde_json::from_slice(bytes).unwrap();
    if let Some(body) = v.get("Set") {
        Command::set(
            body["key"].as_str().unwrap().to_string(),
            body["value"].as_str().unwrap().to_string(),
        )
    } else {
        Command::remove(v["Remove"]["key"].as_str().unwrap().to_string())
    }
}

impl Disk {
    fn new() -> Disk {
        Disk { files: HashMap::new() }
    }

    fn open(&mut self, threshold: u64) -> Handle {
        let names: Vec<Vec<u8>> =
            self.files.keys().map(|g| log_path(*g).into_bytes()).collect();
        let gens = sorted_gen_list(&names);
        let mut engine = KvStore::with_threshold(threshold);
        for g in gens {
            engine.open_generation(g);
            let data = self.files[&g].clone();
            let mut stream =
                serde_json::Deserializer::from_slice(&data).into_iter::<serde_json::Value>();
            let mut pos = 0u64;
            while let Some(v) = stream.next() {
                v.unwrap();
                let end = stream.byte_offset() as u64;
                engine.apply_record(decode(&data[pos as usize..end as usize]), pos, end);
                pos = end;
            }
        }
        let active = engine.start_active().unwrap();
        self.files.entry(active).or_default();
        Handle { engine }
    }

    fn append(&mut self, gen: u64, bytes: &[u8]) -> (u64, u64) {
        let f = self.files.get_mut(&gen).unwrap();
        let start = f.len() as u64;
        f.extend_from_slice(bytes);
        (start, f.len() as u64)
    }

    fn set(&mut self, h: &mut Handle, key: &str, value: &str) {
        let bytes = Command::set(key.to_string(), value.to_string()).encode();
        let (start, end) = self.append(h.engine.current_gen(), &bytes);
        if h.engine.set(key.to_string(), &value.to_string(), start, end) {
            self.compact(h);
        }
    }

    fn remove(&mut self, h: &mut Handle, key: &str) -> Result<(), KvsError> {
        if !h.engine.contains_key(&key.to_string()) {
            return Err(KvsError::KeyNotFound);
        }
        let bytes = Command::remove(key.to_string()).encode();
        let (start, end) = self.append(h.engine.current_gen(), &bytes);
        h.engine.remove(&key.to_string(), start, end)
    }

    fn get(&self, h: &Handle, key: &str) -> Option<String> {
        let at = h.engine.get(&key.to_string())?;
        let f = &self.files[&at.gen];
        let bytes = &f[at.pos as usize..(at.pos + at.len) as usize];
        Some(decode(bytes).into_value().unwrap())
    }

    fn compact(&mut self, h: &mut Handle) {
        let plan = h.engine.compact().unwrap();
        self.files.insert(plan.active_gen, Vec::new());
        let mut out = Vec::new();
        for c in &plan.copies {
            let f = &self.files[&c.gen];
            out.extend_from_slice(&f[c.pos as usize..(c.pos + c.len) as usize]);
        }
        self.files.insert(plan.compaction_gen, out);
        for g in &plan.stale {
            self.files.remove(g);
        }
    }

    fn total_bytes(&self) -> usize {
        self.files.values().map(|f| f.len()).sum()
    }
}

#[test]
fn basic_round_trip() {
    let mut d = Disk::new();
    let mut h = d.open(COMPACTION_THRESHOLD);
    d.set(&mut h, "a", "1");
    assert_eq!(d.get(&h, "a"), Some("1".to_string()));
    d.remove(&mut h, "a").unwrap();
    assert_eq!(d.get(&h, "a"), None);
}

#[test]
fn overwrite_counts_dead_bytes() {
    let mut d = Disk::new();
    let mut h = d.open(COMPACTION_THRESHOLD);
    d.set(&mut h, "k", "v1");
    d.set(&mut h, "k", "v2");
    assert_eq!(d.get(&h, "k"), Some("v2".to_string()));
    let first = Command::set("k".to_string(), "v1".to_string()).encode();
    assert!(h.engine.compactable_bytes() >= first.len() as u64);
    assert_eq!(h.engine.compactable_bytes(), first.len() as u64);
}

#[test]
fn persistence_across_reopen() {
    let mut d = Disk::new();
    let mut h = d.open(COMPACTION_THRESHOLD);
    d.set(&mut h, "x", "X");
    d.set(&mut h, "y", "Y");
    drop(h);
    let h = d.open(COMPACTION_THRESHOLD);
    assert_eq!(d.get(&h, "x"), Some("X".to_string()));
    assert_eq!(d.get(&h, "y"), Some("Y".to_string()));
    assert_eq!(d.get(&h, "z"), None);
}

#[test]
fn remove_persists() {
    let mut d = Disk::new();
    let mut h = d.open(COMPACTION_THRESHOLD);
    d.set(&mut h, "k", "v");
    d.remove(&mut h, "k").unwrap();
    drop(h);
    let h = d.open(COMPACTION_THRESHOLD);
    assert_eq!(d.get(&h, "k"), None);
}

#[test]
fn remove_twice_fails() {
    let mut d = Disk::new();
    let mut h = d.open(COMPACTION_THRESHOLD);
    d.set(&mut h, "k", "v");
    d.remove(&mut h, "k").unwrap();
    let before = d.total_bytes();
    assert_eq!(d.remove(&mut h, "k"), Err(KvsError::KeyNotFound));
    assert_eq!(h.engine.remove(&"k".to_string(), 0, 0), Err(KvsError::KeyNotFound));
    assert_eq!(d.total_bytes(), before);
    assert_eq!(d.get(&h, "k"), None);
}

#[test]
fn compaction_triggers_and_shrinks() {
    let mut d = Disk::new();
    let mut h = d.open(COMPACTION_THRESHOLD);
    let value = "v".repeat(1024);
    for _ in 0..10000 {
        d.set(&mut h, "k", &value);
    }
    assert!(d.files.len() <= 2);
    assert!(d.total_bytes() < 4 * 1024 * 1024);
    assert!(h.engine.current_gen() > 1);
    assert_eq!(d.get(&h, "k"), Some(value.clone()));
    drop(h);
    let h = d.open(COMPACTION_THRESHOLD);
    assert_eq!(d.get(&h, "k"), Some(value));
}

#[test]
fn compaction_keeps_contents() {
    let mut d = Disk::new();
    let mut h = d.open(1024);
    let mut reference: HashMap<String, String> = HashMap::new();
    let mut seed: u64 = 12345;
    let mut compactions = 0;
    for step in 0..3000 {
        seed = seed.wrapping_mul(6364136223846793005).wrapping_add(1442695040888963407);
        let key = format!("key{}", (seed >> 33) % 16);
        let before = h.engine.current_gen();
        match (seed >> 20) % 3 {
            0 => {
                let value = format!("value{}", step);
                d.set(&mut h, &key, &value);
                reference.insert(key.clone(), value);
            }
            1 => {
                let r = d.remove(&mut h, &key);
                match reference.remove(&key) {
                    Some(_) => assert_eq!(r, Ok(())),
                    None => assert_eq!(r, Err(KvsError::KeyNotFound)),
                }
            }
            _ => {}
        }
        if h.engine.current_gen() != before {
            compactions += 1;
        }
        assert_eq!(d.get(&h, &key), reference.get(&key).cloned());
    }
    assert!(compactions > 0);
    for i in 0..16 {
        let key = format!("key{}", i);
        assert_eq!(d.get(&h, &key), reference.get(&key).cloned());
    }
    drop(h);
    let h = d.open(1024);
    for i in 0..16 {
        let key = format!("key{}", i);
        assert_eq!(d.get(&h, &key), reference.get(&key).cloned());
    }
}

#[test]
fn compaction_size_is_live_records() {
    let mut d = Disk::new();
    let mut h = d.open(COMPACTION_THRESHOLD);
    d.set(&mut h, "a", "old");
    d.set(&mut h, "a", "1");
    d.set(&mut h, "b", "2");
    d.set(&mut h, "c", "3");
    d.remove(&mut h, "c").unwrap();
    d.compact(&mut h);
    let live = Command::set("a".to_string(), "1".to_string()).encode().len()
        + Command::set("b".to_string(), "2".to_string()).encode().len();
    assert_eq!(d.total_bytes(), live);
    assert_eq!(h.engine.generation_list(), vec![2, 3]);
    assert_eq!(h.engine.current_gen(), 3);
    assert_eq!(h.engine.compactable_bytes(), 0);
    assert_eq!(d.get(&h, "a"), Some("1".to_string()));
    assert_eq!(d.get(&h, "b"), Some("2".to_string()));
    assert_eq!(d.get(&h, "c"), None);
}

#[test]
fn recovery_counts_dead_bytes() {
    let mut d = Disk::new();
    let mut h = d.open(COMPACTION_THRESHOLD);
    d.set(&mut h, "a", "1");
    d.set(&mut h, "a", "2");
    d.remove(&mut h, "a").unwrap();
    drop(h);
    let h = d.open(COMPACTION_THRESHOLD);
    assert_eq!(h.engine.compactable_bytes() as usize, d.total_bytes());
    assert_eq!(h.engine.current_gen(), 2);
}

#[test]
fn threshold_decides_when_compaction_is_due() {
    let mut h = KvStore::with_threshold(10);
    assert_eq!(h.start_active(), Some(1));
    assert!(!h.set("k".to_string(), &"v".to_string(), 0, 8));
    assert!(!h.set("k".to_string(), &"v".to_string(), 8, 16));
    assert_eq!(h.compactable_bytes(), 8);
    assert!(h.set("k".to_string(), &"v".to_string(), 16, 24));
    assert_eq!(h.compactable_bytes(), 16);
}

#[test]
fn empty_store_starts_at_generation_one() {
    let mut h = KvStore::new();
    assert_eq!(h.start_active(), Some(1));
    assert_eq!(h.current_gen(), 1);
    assert_eq!(h.get(&"a".to_string()), None);
}

#[test]
fn start_active_after_the_largest_generation_fails() {
    let mut h = KvStore::new();
    h.open_generation(u64::MAX);
    assert_eq!(h.start_active(), None);
    assert_eq!(h.generation_list(), vec![u64::MAX]);
}

#[test]
fn compaction_refuses_generation_overflow() {
    let mut h = KvStore::new();
    h.open_generation(u64::MAX - 1);
    assert!(h.compact().is_none());
    assert_eq!(h.current_gen(), u64::MAX - 1);
}

#[test]
fn recovery_of_remove_counts_both_records() {
    let mut h = KvStore::new();
    h.open_generation(4);
    h.apply_record(Command::set("a".to_string(), "1".to_string()), 0, 30);
    h.apply_record(Command::remove("a".to_string()), 30, 50);
    assert_eq!(h.compactable_bytes(), 50);
    h.apply_record(Command::remove("b".to_string()), 50, 60);
    assert_eq!(h.compactable_bytes(), 60);
    assert_eq!(h.get(&"a".to_string()), None);
    assert_eq!(h.start_active(), Some(5));
}

#[test]
fn get_of_a_remove_record_is_unexpected() {
    assert_eq!(
        Command::remove("a".to_string()).into_value(),
        Err(KvsError::UnexpectedCommandType)
    );
    assert_eq!(Command::set("a".to_string(), "b".to_string()).into_value(), Ok("b".to_string()));
}

#[test]
fn encoding_matches_the_log_format() {
    let set = Command::set("a".to_string(), "1".to_string()).encode();
    assert_eq!(set, br#"{"Set":{"key":"a","value":"1"}}"#.to_vec());
    let rm = Command::remove("k\"x".to_string()).encode();
    assert_eq!(rm, br#"{"Remove":{"key":"k\"x"}}"#.to_vec());
    let empty = Command::set("k".to_string(), String::new()).encode();
    assert_eq!(empty, br#"{"Set":{"key":"k","value":""}}"#.to_vec());
}

#[test]
fn log_file_names() {
    assert_eq!(log_path(7), "7.log");
    assert_eq!(log_path(0), "0.log");
    assert_eq!(log_path(u64::MAX), "18446744073709551615.log");
    assert_eq!(parse_gen_name(b"12.log"), Some(12));
    assert_eq!(parse_gen_name(b"18446744073709551615.log"), Some(u64::MAX));
    assert_eq!(parse_gen_name(b"18446744073709551616.log"), None);
    assert_eq!(parse_gen_name(b".log"), None);
    assert_eq!(parse_gen_name(b"x1.log"), None);
    assert_eq!(parse_gen_name(b"1.txt"), None);
    assert_eq!(parse_gen_name(b"1.log.bak"), None);
}

#[test]
fn generation_list_is_sorted_and_unique() {
    let names: Vec<Vec<u8>> = ["10.log", "2.log", "notes.txt", "002.log", "1.log", "a.log"]
        .iter()
        .map(|s| s.as_bytes().to_vec())
        .collect();
    assert_eq!(sorted_gen_list(&names), vec![1, 2, 10]);
    assert_eq!(sorted_gen_list(&Vec::new()), Vec::<u64>::new());
}

#[test]
fn set_places_the_key_and_leaves_others() {
    let mut h = KvStore::new();
    assert_eq!(h.start_active(), Some(1));
    h.set("a".to_string(), &"1".to_string(), 0, 10);
    h.set("b".to_string(), &"2".to_string(), 10, 25);
    h.set("a".to_string(), &"3".to_string(), 25, 31);
    assert_eq!(h.get(&"a".to_string()), Some(CommandPos { gen: 1, pos: 25, len: 6 }));
    assert_eq!(h.get(&"b".to_string()), Some(CommandPos { gen: 1, pos: 10, len: 15 }));
    assert_eq!(h.compactable_bytes(), 10);
    assert_eq!(h.remove(&"a".to_string(), 31, 40), Ok(()));
    assert_eq!(h.get(&"a".to_string()), None);
    assert_eq!(h.get(&"b".to_string()), Some(CommandPos { gen: 1, pos: 10, len: 15 }));
    assert_eq!(h.compactable_bytes(), 10 + 6 + 9);
}
