use md5::{Digest, Md5};
use pso2_rainbow::digest::hash_string;
use pso2_rainbow::pipeline::{
    record_for, settle_insert, sub_batches, ChunkPlan, ChunkReport, InsertFailure, PersistError,
};
use pso2_rainbow::rainbow_table::PlaintextGenerator;
use std::collections::HashMap;

fn always(_s: &str) -> bool {
    true
}

fn md5_bytes(data: &[u8]) -> [u8; 16] {
    Md5::digest(data).into()
}

fn hex(d: &[u8; 16]) -> String {
    d.iter().map(|b| format!("{:02x}", b)).collect()
}

#[test]
fn digest_of_ascii_candidate() {
    assert_eq!(hash_string("a.x"), md5_bytes(b"a.x"));
}

#[test]
fn digest_known_values() {
    assert_eq!(hex(&hash_string("")), "d41d8cd98f00b204e9800998ecf8427e");
    assert_eq!(hex(&hash_string("a")), "0cc175b9c0f1b6a831c399e269772661");
}

#[test]
fn digest_narrows_each_character_to_a_byte() {
    assert_eq!(hash_string("\u{e9}"), md5_bytes(&[0xe9]));
    assert_eq!(hash_string("\u{100}a"), md5_bytes(&[0x00, b'a']));
    assert_eq!(hash_string("\u{161}"), hash_string("a"));
}

#[test]
fn digest_is_deterministic() {
    let a = hash_string("character/np_common_abc.ice");
    let b = hash_string(&String::from("character/np_common_abc.ice"));
    assert_eq!(a, b);
    assert_ne!(a, hash_string("character/np_common_abd.ice"));
}

#[test]
fn record_holds_candidate_and_digest() {
    let gen = PlaintextGenerator::new(&[""], &[".x"], "ab01", 1, always, 1).unwrap();
    let r = record_for(&gen, 1);
    assert_eq!(r.filename, "a.x");
    assert_eq!(r.md5, md5_bytes(b"a.x"));
}

#[test]
fn chunk_plan_walks_windows() {
    assert!(ChunkPlan::new(10, 0).is_none());
    let mut plan = ChunkPlan::new(10, 4).unwrap();
    assert!(!plan.is_done());
    assert_eq!(plan.next_chunk(), Some(0..4));
    assert_eq!(plan.next_chunk(), Some(4..8));
    assert_eq!(plan.next_chunk(), Some(8..10));
    assert!(plan.is_done());
    assert_eq!(plan.next_chunk(), None);
    let mut empty = ChunkPlan::new(0, 3).unwrap();
    assert!(empty.is_done());
    assert_eq!(empty.next_chunk(), None);
}

#[test]
fn sub_batches_cover_the_chunk() {
    assert_eq!(sub_batches(5, 2), vec![0..2, 2..4, 4..5]);
    assert_eq!(sub_batches(4, 2), vec![0..2, 2..4]);
    assert_eq!(sub_batches(3, 10), vec![0..3]);
    assert!(sub_batches(0, 10).is_empty());
}

#[test]
fn insert_outcomes() {
    assert!(matches!(settle_insert(Ok(7)), Ok(7)));
    assert!(matches!(settle_insert(Err(InsertFailure::UniqueViolation)), Ok(0)));
    match settle_insert(Err(InsertFailure::Other(String::from("connection lost")))) {
        Err(PersistError::Storage(m)) => assert_eq!(m, "connection lost"),
        other => panic!("unexpected {:?}", other),
    }
}

#[test]
fn chunk_report_counts() {
    let mut report = ChunkReport::new(30);
    report.record(0, Ok(10));
    report.record(1, Ok(4));
    assert!(report.is_clean());
    report.record(2, Err(PersistError::Storage(String::from("timeout"))));
    assert_eq!(report.hashed, 30);
    assert_eq!(report.written, 14);
    assert!(!report.is_clean());
    assert_eq!(report.failures.len(), 1);
    assert_eq!(report.failures[0].batch, 2);
    assert_eq!(report.failures[0].reason, "timeout");
    report.record(3, Ok(usize::MAX));
    assert_eq!(report.written, usize::MAX);
}

/// Stores records first-writer-wins and returns how many were new.
fn store(map: &mut HashMap<[u8; 16], String>, records: &[([u8; 16], String)]) -> usize {
    let mut added = 0;
    for (d, p) in records {
        if !map.contains_key(d) {
            map.insert(*d, p.clone());
            added += 1;
        }
    }
    added
}

fn run(gen: &PlaintextGenerator, chunk: u64, map: &mut HashMap<[u8; 16], String>) -> usize {
    let mut plan = ChunkPlan::new(gen.len() as u64, chunk).unwrap();
    let mut added = 0;
    while let Some(w) = plan.next_chunk() {
        let records: Vec<([u8; 16], String)> = w
            .map(|i| {
                let r = record_for(gen, i);
                (r.md5, r.filename)
            })
            .collect();
        for b in sub_batches(records.len(), 3) {
            added += store(map, &records[b]);
        }
    }
    added
}

#[test]
fn second_run_stores_nothing_new() {
    let gen = PlaintextGenerator::new(&["", "sy_"], &[".ice"], "ab", 1, always, 2).unwrap();
    let mut map = HashMap::new();
    let first = run(&gen, 5, &mut map);
    let snapshot = map.clone();
    assert_eq!(first, map.len());
    // "a" + "" and "" + "a" give the same candidate: fewer rows than indices.
    assert!(first < gen.len());
    let second = run(&gen, 5, &mut map);
    assert_eq!(second, 0);
    assert_eq!(map, snapshot);
}

#[test]
fn chunk_size_does_not_change_the_mapping() {
    let gen = PlaintextGenerator::new(&["", "sy_"], &[".ice", "_info.ice"], "ab0", 1, always, 2).unwrap();
    let mut whole = HashMap::new();
    run(&gen, gen.len() as u64, &mut whole);
    for chunk in [1u64, 2, 7, 100] {
        let mut m = HashMap::new();
        run(&gen, chunk, &mut m);
        assert_eq!(m, whole);
    }
}
