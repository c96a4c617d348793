use lzjd::compare::compare_all;
use lzjd::compare::compare_row;
use lzjd::persist::parse_digest_line;
use lzjd::LZDict;
use lzjd::LZJDError;

fn three_dicts() -> Vec<LZDict> {
    vec![
        LZDict::from_vec(vec![0, 1, 2, 3]),
        LZDict::from_vec(vec![0, 1, 2, 9]),
        LZDict::from_vec(vec![100, 101, 102, 103]),
    ]
}

#[test]
fn test_self_comparison_pairs() {
    // Self-comparison of N digests evaluates exactly N*(N-1)/2 pairs:
    // no (i, i), and never both (i, j) and (j, i).
    let dicts = three_dicts();
    let results = compare_all(&dicts, &dicts, true, 0);
    assert_eq!(results.len(), 3);
    for (i, j, _) in &results {
        assert!(i < j);
    }
    let pairs: Vec<(usize, usize)> = results.iter().map(|r| (r.0, r.1)).collect();
    assert!(pairs.contains(&(0, 1)));
    assert!(pairs.contains(&(0, 2)));
    assert!(pairs.contains(&(1, 2)));
}

#[test]
fn test_threshold_filters_pairs() {
    // Pairs 0-1 share 3 of 5 values (60%), pairs with 2 share nothing (0%).
    // Threshold 50 must keep exactly the pair at or above 50.
    let dicts = three_dicts();
    let results = compare_all(&dicts, &dicts, true, 50);
    assert_eq!(results.len(), 1);
    assert_eq!(results[0], (0, 1, 60));
    // Raising the threshold can only shrink the result set.
    let at_61 = compare_all(&dicts, &dicts, true, 61);
    assert_eq!(at_61.len(), 0);
    for r in &at_61 {
        assert!(results.contains(r));
    }
}

#[test]
fn test_cross_comparison_is_full_product() {
    // Two collections that are different objects, even if equal element-wise,
    // are compared over the full cross product.
    let dicts_a = three_dicts();
    let dicts_b = three_dicts();
    let results = compare_all(&dicts_a, &dicts_b, false, 0);
    assert_eq!(results.len(), 9);
    for (i, j, s) in &results {
        assert!(*i < 3 && *j < 3);
        if i == j {
            assert_eq!(*s, 100);
        }
    }
}

#[test]
fn test_row_partition_matches_batch() {
    // Splitting the work by rows and concatenating, as a worker pool does,
    // yields exactly the batch result: the partitioning cannot change which
    // pairs are emitted.
    let dicts = three_dicts();
    let batch = compare_all(&dicts, &dicts, true, 0);
    let mut by_rows: Vec<(usize, usize, u32)> = Vec::new();
    for i in 0..dicts.len() {
        by_rows.extend(compare_row(&dicts, &dicts, true, 0, i));
    }
    assert_eq!(batch, by_rows);
}

#[test]
fn test_parse_digest_line_round_trip() {
    let dict = LZDict::from_vec(vec![-5, 0, 7, 1 << 40]);
    let line = format!("lzjd:some/file.bin:{}", dict.to_string());
    let (name, parsed) = parse_digest_line(&line).unwrap();
    assert_eq!(name, "some/file.bin");
    assert_eq!(parsed.entries(), dict.entries());
}

#[test]
fn test_parse_digest_line_errors() {
    // No colon after the name position.
    match parse_digest_line("lzjd-no-colon") {
        Err(LZJDError::Parse) => {}
        _ => panic!("a line without a late colon must give a parse error"),
    }
    // The last colon too early: no room for a name.
    match parse_digest_line("lzjd:") {
        Err(LZJDError::Parse) => {}
        _ => panic!("a line whose last colon is at the name start must give a parse error"),
    }
    // A malformed payload after a well-placed colon.
    match parse_digest_line("lzjd:name:???") {
        Err(LZJDError::Base64 { .. }) => {}
        _ => panic!("a malformed payload must give a base64 error"),
    }
    // A payload that decodes to a length that is not a multiple of 8.
    match parse_digest_line("lzjd:name:AAAA") {
        Err(LZJDError::Decode) => {}
        _ => panic!("a short payload must give a decode error"),
    }
}
