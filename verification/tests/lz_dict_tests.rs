use lzjd::crc32::CRC32BuildHasher;
use lzjd::hasher::BuildSketchHasher;
use lzjd::hasher::SketchHasher;
use lzjd::murmur3::Murmur3BuildHasher;
use lzjd::LZDict;
use lzjd::LZJDError;

fn is_sorted_and_unique(list: &[i64]) -> bool {
    if list.len() <= 1 {
        true
    } else {
        for i in 1..list.len() {
            if list[i - 1] >= list[i] {
                return false;
            }
        }
        true
    }
}

fn jaccard_similarity(a: &LZDict, b: &LZDict) -> f64 {
    let intersection_len = a.intersection_len(b);
    let union_len = a.len() + b.len() - intersection_len;
    intersection_len as f64 / union_len as f64
}

fn dist(a: &LZDict, b: &LZDict) -> f64 {
    1.0 - jaccard_similarity(a, b)
}

#[test]
fn test_optimized_dist() {
    let build_hasher = CRC32BuildHasher;

    let a = b"THIS IS A TEST SEQUENCE".to_vec();
    let b = b"THIS IS A TEST SEQUENCE".to_vec();
    let c = b"totally_different".to_vec();
    let d = b"THIS IS A DIFFERENT TEST SEQUENCE".to_vec();

    let dict_a = LZDict::from_bytes_stream_lz78(&a, &build_hasher);
    let dict_b = LZDict::from_bytes_stream_lz78(&b, &build_hasher);
    let dict_c = LZDict::from_bytes_stream_lz78(&c, &build_hasher);
    let dict_d = LZDict::from_bytes_stream_lz78(&d, &build_hasher);

    let dist_ab = dist(&dict_a, &dict_b);
    assert!(
        dist_ab.abs() < f64::EPSILON,
        "Distance of equal sequences (a and b) should equal 0, was {}",
        dist_ab
    );
    let dist_ac = dist(&dict_a, &dict_c);
    assert!(
        (1. - dist_ac).abs() < f64::EPSILON,
        "Distance of totally different sequences (a and c) should equal 1, was {}",
        dist_ac
    );
    let dist_ad = dist(&dict_a, &dict_d);
    assert!(
        (0.409_090_909_090_909_06 - dist_ad).abs() < f64::EPSILON,
        "Distance of a and d should equal 0.40909090909090906, was {}",
        dist_ad
    );
    assert!(
        (dist(&dict_a, &dict_d) - dist(&dict_d, &dict_a)).abs() < f64::EPSILON,
        "Distance of a and d should be equal to distance of d and a"
    );
}

#[test]
fn test_from_bytes_iter() {
    let sequence = b"TESTSEQUENCETESTTESTTTTTEESSTT".to_vec();
    let build_hasher = CRC32BuildHasher;
    let lz_dict = LZDict::from_bytes_stream(&sequence, &build_hasher);

    assert!(
        is_sorted_and_unique(lz_dict.entries()),
        "Entries of dictionary are either not sorted or not unique"
    );

    // A stream shorter than the sketch bound yields one entry per distinct
    // hash value observed; this stream produces 15 phrase hashes.
    assert_eq!(lz_dict.len(), 15);
    assert!(lz_dict.len() <= 1024);
}

#[test]
fn test_jaccard_similarity() {
    let a = LZDict::from_vec(vec![0, 1, 2, 3]);
    let b = LZDict::from_vec(vec![0, 1, 2]);
    let c = LZDict::from_vec(vec![1, 2, 3, 4]);
    let d = LZDict::from_vec(vec![]);
    let e = LZDict::from_vec(vec![4, 5, 6, 7]);
    let f = LZDict::from_vec(vec![0, 1, 2, 3, 5]);

    assert!((jaccard_similarity(&a, &a) - 4 as f64 / 4 as f64).abs() < f64::EPSILON);
    assert!((jaccard_similarity(&a, &b) - 3 as f64 / 4 as f64).abs() < f64::EPSILON);
    assert!((jaccard_similarity(&a, &c) - 3 as f64 / 5 as f64).abs() < f64::EPSILON);
    assert!((jaccard_similarity(&a, &d) - 0 as f64 / 4 as f64).abs() < f64::EPSILON);
    assert!((jaccard_similarity(&a, &e) - 0 as f64 / 8 as f64).abs() < f64::EPSILON);
    assert!((jaccard_similarity(&a, &f) - 4 as f64 / 5 as f64).abs() < f64::EPSILON);
}

#[test]
fn test_sketch_bound_and_order() {
    // A long stream with plenty of distinct phrases still yields a sketch of
    // at most 1024 strictly ascending entries.
    let mut stream: Vec<u8> = Vec::new();
    let mut state: u32 = 0x12345678;
    for _ in 0..50000 {
        state = state.wrapping_mul(1664525).wrapping_add(1013904223);
        stream.push((state >> 24) as u8);
    }
    let build_hasher = CRC32BuildHasher;
    let dict = LZDict::from_bytes_stream(&stream, &build_hasher);
    assert!(dict.len() <= 1024);
    assert!(is_sorted_and_unique(dict.entries()));
    assert!(dict.is_wf());

    let dict78 = LZDict::from_bytes_stream_lz78(&stream, &build_hasher);
    assert!(dict78.len() <= 1024);
    assert!(is_sorted_and_unique(dict78.entries()));
}

#[test]
fn test_empty_stream_gives_empty_sketch() {
    let build_hasher = CRC32BuildHasher;
    let empty: Vec<u8> = Vec::new();
    assert_eq!(LZDict::from_bytes_stream(&empty, &build_hasher).len(), 0);
    assert_eq!(LZDict::from_bytes_stream_lz78(&empty, &build_hasher).len(), 0);
}

#[test]
fn test_similarity_percent_values() {
    let a = LZDict::from_vec(vec![0, 1, 2, 3]);
    let b = LZDict::from_vec(vec![0, 1, 2]);
    let e = LZDict::from_vec(vec![4, 5, 6, 7]);
    let empty = LZDict::from_vec(vec![]);
    // round(100 * 3/4) = 75, round(100 * 0/8) = 0, self = 100.
    assert_eq!(a.similarity_percent(&b), 75);
    assert_eq!(b.similarity_percent(&a), 75);
    assert_eq!(a.similarity_percent(&e), 0);
    assert_eq!(a.similarity_percent(&a), 100);
    // Two empty sketches score 0 by this library's convention.
    assert_eq!(empty.similarity_percent(&empty), 0);
    // round(100 * 3/5) = 60 and rounding half up: round(100 * 1/8) = 13.
    let c = LZDict::from_vec(vec![1, 2, 3, 4]);
    assert_eq!(a.similarity_percent(&c), 60);
    let g = LZDict::from_vec(vec![0, 10, 20, 30]);
    let h = LZDict::from_vec(vec![0, 40, 50, 60, 70]);
    // intersection 1, union 8: 12.5 rounds to 13.
    assert_eq!(g.similarity_percent(&h), 13);
}

#[test]
fn test_to_string_round_trip() {
    let build_hasher = CRC32BuildHasher;
    let stream = b"THIS IS A TEST SEQUENCE".to_vec();
    let dict = LZDict::from_bytes_stream(&stream, &build_hasher);
    let text = dict.to_string();
    let back = LZDict::from_base64_string(&text).unwrap();
    assert_eq!(back.entries(), dict.entries());
    assert!(back.is_wf());
}

#[test]
fn test_to_string_exact_encoding() {
    // One zero entry encodes as eight zero bytes: base64 "AAAAAAAAAAA=".
    let dict = LZDict::from_vec(vec![0]);
    assert_eq!(dict.to_string(), "AAAAAAAAAAA=");
    // A value with every byte distinct survives the trip exactly.
    let dict2 = LZDict::from_vec(vec![0x0102030405060708, -1, 42]);
    let back = LZDict::from_base64_string(&dict2.to_string()).unwrap();
    assert_eq!(back.entries(), dict2.entries());
}

#[test]
fn test_from_base64_string_errors() {
    // Not base64 at all.
    match LZDict::from_base64_string("!!!not base64!!!") {
        Err(LZJDError::Base64 { .. }) => {}
        _ => panic!("malformed base64 must give a base64 error"),
    }
    // Valid base64, but 3 decoded bytes are not a multiple of 8.
    match LZDict::from_base64_string("AAAA") {
        Err(LZJDError::Decode) => {}
        _ => panic!("a payload that is not a multiple of 8 bytes must give a decode error"),
    }
}

#[test]
fn test_is_wf_detects_unsorted_payload() {
    // The persisted form is decoded without re-validating sortedness, so an
    // out-of-order payload (entries 3 then 1) yields a sketch that fails the
    // invariant check.
    let dict = LZDict::from_base64_string("AwAAAAAAAAABAAAAAAAAAA==").unwrap();
    assert_eq!(dict.entries(), &vec![3, 1]);
    assert!(!dict.is_wf());
    // A sorted payload passes it.
    let sorted = LZDict::from_vec(vec![1, 3]);
    assert!(LZDict::from_base64_string(&sorted.to_string()).unwrap().is_wf());
}

#[test]
fn test_crc32_hasher_known_value() {
    // The CRC-32/ISO-HDLC check value: CRC32("123456789") = 0xCBF43926.
    let build_hasher = CRC32BuildHasher;
    let mut hasher = build_hasher.build_hasher();
    for b in b"123456789" {
        hasher.write_u8(*b);
    }
    assert_eq!(hasher.finish(), 0xCBF43926);
}

#[test]
fn test_murmur3_hasher_known_value() {
    // The low 64 bits of MurmurHash3 x64 128 of "hello" with seed 0.
    let build_hasher = Murmur3BuildHasher;
    let mut hasher = build_hasher.build_hasher();
    for b in b"hello" {
        hasher.write_u8(*b);
    }
    assert_eq!(hasher.finish(), 14688674573012802306);
}

#[test]
fn test_from_vec_keeps_smallest_on_overflow() {
    // Ascending input: the first 1024 fill the sketch, every later value is
    // at least the maximum and is discarded.
    let ascending: Vec<i64> = (0..2000).collect();
    let dict = LZDict::from_vec(ascending);
    assert_eq!(dict.len(), 1024);
    assert_eq!(dict.entries(), &(0..1024).collect::<Vec<i64>>());

    // Descending input: every smaller value evicts the current maximum, so
    // the same smallest 1024 survive.
    let descending: Vec<i64> = (0..2000).rev().collect();
    let dict = LZDict::from_vec(descending);
    assert_eq!(dict.entries(), &(0..1024).collect::<Vec<i64>>());
}

#[test]
fn test_from_vec_dedups_and_sorts() {
    let dict = LZDict::from_vec(vec![5, 3, 5, 1, 3, -7]);
    assert_eq!(dict.entries(), &vec![-7, 1, 3, 5]);
    assert!(dict.is_wf());
}
