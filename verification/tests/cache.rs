use std::collections::BTreeMap;
use yaskkserv2::error::SkkError;
use yaskkserv2::google_cache::{parse_or_zero_u64, u64_decimal, GoogleCache};

const LOOP: usize = 50;

type GoogleCacheBTreeMap = BTreeMap<Vec<u8>, Vec<Vec<u8>>>;

/// The content of the cache file for `map`.
fn write(file: &mut Vec<u8>, map: &GoogleCacheBTreeMap) {
    let cache = GoogleCache::from_entries(map.clone().into_iter().collect()).unwrap();
    *file = cache.write_bytes().unwrap();
}

/// The cache that the cache file `file` holds.
fn read(file: &[u8]) -> Result<GoogleCacheBTreeMap, SkkError> {
    GoogleCache::read_bytes(file).map(|c| c.entries().into_iter().collect())
}

fn huge_cache_b_tree_map() -> GoogleCacheBTreeMap {
    let mut map = GoogleCacheBTreeMap::new();
    for i in 0..20000u32 {
        let midashi = format!("みだし{}", i).into_bytes();
        let candidates = (0..5).map(|k| format!("候補{}_{}", i, k).into_bytes()).collect();
        map.insert(midashi, candidates);
    }
    map
}

#[test]
fn cache_read_empty_test() {
    let mut path = Vec::new();
    write(&mut path, &GoogleCacheBTreeMap::new());
    let bench = std::time::Instant::now();
    for _ in 0..LOOP {
        assert!(read(&path).unwrap().is_empty());
    }
    println!("bench cache_read_empty_test {}ms.", bench.elapsed().as_millis() / LOOP as u128);
}

#[test]
fn cache_read_huge_test() {
    let mut path = Vec::new();
    let map = huge_cache_b_tree_map();
    write(&mut path, &map);
    let bench = std::time::Instant::now();
    for _ in 0..5 {
        assert_eq!(read(&path).unwrap().len(), map.len());
    }
    println!("bench cache_read_huge_test {}ms.", bench.elapsed().as_millis() / 5);
    let cache = GoogleCache::from_entries(read(&path).unwrap().into_iter().collect()).unwrap();
    assert_eq!(cache.entries().len(), map.len());
}

#[test]
fn cache_write_empty_test() {
    let mut path = Vec::new();
    let map = GoogleCacheBTreeMap::new();
    let bench = std::time::Instant::now();
    for _ in 0..LOOP {
        write(&mut path, &map);
    }
    println!("bench cache_write_empty_test {}ms.", bench.elapsed().as_millis() / LOOP as u128);
    assert!(read(&path).unwrap().is_empty());
}

#[test]
fn cache_write_huge_test() {
    let mut path = Vec::new();
    let map = huge_cache_b_tree_map();
    let bench = std::time::Instant::now();
    for _ in 0..5 {
        write(&mut path, &map);
    }
    println!("bench cache_write_huge_test {}ms.", bench.elapsed().as_millis() / 5);
    assert_eq!(read(&path).unwrap(), map);
}

#[test]
fn cache_broken_file_test() {
    assert_eq!(GoogleCache::unframe(&[0u8; 27]), Err(SkkError::BrokenCache));
    let mut framed = GoogleCache::new().write_bytes().unwrap();
    assert_eq!(framed.len(), 28);
    assert!(GoogleCache::unframe(&framed).is_ok());
    assert!(GoogleCache::read_bytes(&framed).unwrap().entries().is_empty());
    framed[0] ^= 1;
    assert_eq!(GoogleCache::unframe(&framed), Err(SkkError::BrokenCache));
    assert_eq!(GoogleCache::read_bytes(&framed).err(), Some(SkkError::BrokenCache));
    let not_a_map = GoogleCache::frame(&[1, 0, 0, 0, 0, 0, 0, 0]);
    assert_eq!(GoogleCache::read_bytes(&not_a_map).err(), Some(SkkError::Bincode));
}

#[test]
fn cache_file_roundtrip_test() {
    let mut cache = GoogleCache::new();
    assert!(cache.write_candidates(b"a", &strings(&["x", "y"]), 10, 100, 1000));
    assert!(cache.write_candidates(b"b", &strings(&["z"]), 10, 100, 1001));
    let bytes = cache.write_bytes().unwrap();
    let back = GoogleCache::read_bytes(&bytes).unwrap();
    assert_eq!(back.entries(), cache.entries());
    assert_eq!(back.get_candidates(b"a"), strings(&["x", "y"]));
}

fn strings(v: &[&str]) -> Vec<Vec<u8>> {
    v.iter().map(|s| s.as_bytes().to_vec()).collect()
}

#[test]
fn cache_read_after_write_test() {
    let mut cache = GoogleCache::new();
    assert!(cache.get_candidates(b"a").is_empty());
    assert!(cache.write_candidates(b"a", &strings(&["x", "y"]), 10, 100, 1000));
    assert_eq!(cache.get_candidates(b"a"), strings(&["x", "y"]));
    assert_eq!(cache.entries(), vec![(b"a".to_vec(), strings(&["1000", "x", "y"]))]);
    assert!(cache.write_candidates(b"a", &strings(&["x", "y"]), 10, 100, 1001));
    assert!(!cache.write_candidates(b"a", &strings(&["1001", "x", "y"]), 10, 100, 1002));
    assert!(cache.write_candidates(b"0", &strings(&["z"]), 10, 100, 1003));
    let keys: Vec<Vec<u8>> = cache.entries().into_iter().map(|e| e.0).collect();
    assert_eq!(keys, strings(&["0", "a"]));
}

#[test]
fn cache_expire_and_entries_test() {
    let mut cache = GoogleCache::new();
    assert!(cache.write_candidates(b"a", &strings(&["x"]), 10, 10, 1000));
    assert!(cache.write_candidates(b"b", &strings(&["y"]), 10, 10, 1020));
    assert!(cache.get_candidates(b"a").is_empty());
    assert_eq!(cache.get_candidates(b"b"), strings(&["y"]));
    let mut cache = GoogleCache::new();
    assert!(cache.write_candidates(b"b", &strings(&["x"]), 1, 100, 1000));
    assert!(cache.write_candidates(b"a", &strings(&["y"]), 1, 100, 1001));
    assert!(cache.get_candidates(b"b").is_empty());
    assert_eq!(cache.get_candidates(b"a"), strings(&["y"]));
    let mut cache = GoogleCache::new();
    assert!(cache.write_candidates(b"b", &strings(&["x"]), 1, 100, 1000));
    assert!(cache.write_candidates(b"a", &strings(&["y"]), 1, 100, 1000));
    assert_eq!(cache.get_candidates(b"b"), strings(&["x"]));
    assert!(cache.get_candidates(b"a").is_empty());
}

#[test]
fn cache_from_entries_test() {
    assert!(GoogleCache::from_entries(vec![(b"b".to_vec(), strings(&["1"])), (b"a".to_vec(), strings(&["1"]))]).is_none());
    assert!(GoogleCache::from_entries(vec![(b"a".to_vec(), Vec::new())]).is_none());
    assert!(GoogleCache::from_entries(vec![(b"a".to_vec(), vec![vec![0xff]])]).is_none());
    let cache = GoogleCache::from_entries(vec![(b"a".to_vec(), strings(&["5", "c"]))]).unwrap();
    assert_eq!(cache.get_candidates(b"a"), strings(&["c"]));
}

#[test]
fn cache_time_text_test() {
    assert_eq!(u64_decimal(0), b"0".to_vec());
    assert_eq!(u64_decimal(1_700_000_000), b"1700000000".to_vec());
    assert_eq!(u64_decimal(u64::MAX), u64::MAX.to_string().into_bytes());
    assert_eq!(parse_or_zero_u64(b"1700000000"), 1_700_000_000);
    assert_eq!(parse_or_zero_u64(b"x"), 0);
    assert_eq!(parse_or_zero_u64(b""), 0);
}
