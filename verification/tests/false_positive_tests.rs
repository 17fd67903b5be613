use duplicate_finder::false_positives::{set_to_vec, vec_to_set, FalsePositives};

#[test]
fn pairs_serialize_sorted_and_hex_encoded() {
    let pairs = vec![(2u128, 1u128)];
    let v = set_to_vec(&pairs);
    assert_eq!(
        v,
        vec![vec![
            "00000000000000000000000000000001".to_string(),
            "00000000000000000000000000000002".to_string()
        ]]
    );
}

#[test]
fn fp_round_trip_returns_sorted_pairs() {
    let pairs = vec![(2u128, 1u128), (3u128, 9u128)];
    let parsed = vec_to_set(&set_to_vec(&pairs)).unwrap();
    assert_eq!(parsed, vec![(1, 2), (3, 9)]);
}

#[test]
fn fp_decode_rejects_wrong_entry_count() {
    let v = vec![vec!["00000000000000000000000000000001".to_string()]];
    assert_eq!(vec_to_set(&v).unwrap_err(), "Invalid number of entries: 1, expected 2");
    let v3 = vec![vec![
        "00000000000000000000000000000001".to_string(),
        "00000000000000000000000000000002".to_string(),
        "00000000000000000000000000000003".to_string(),
    ]];
    assert_eq!(vec_to_set(&v3).unwrap_err(), "Invalid number of entries: 3, expected 2");
}

#[test]
fn fp_decode_counts_entries_in_decimal() {
    let entry: Vec<String> = (0..12).map(|_| "0".to_string()).collect();
    let v = vec![entry];
    assert_eq!(vec_to_set(&v).unwrap_err(), "Invalid number of entries: 12, expected 2");
}

#[test]
fn fp_decode_rejects_wrong_hash_length() {
    let v = vec![vec!["0001".to_string(), "00000000000000000000000000000002".to_string()]];
    assert_eq!(vec_to_set(&v).unwrap_err(), "Invalid hash, expected 32 hex digits");
}

#[test]
fn fp_decode_rejects_non_hex() {
    let v = vec![vec![
        "zz000000000000000000000000000001".to_string(),
        "00000000000000000000000000000002".to_string(),
    ]];
    assert!(vec_to_set(&v).is_err());
}

#[test]
fn fp_decode_accepts_empty_store() {
    assert_eq!(vec_to_set(&Vec::new()).unwrap(), Vec::new());
}

#[test]
fn fp_membership_checks_both_orders() {
    let mut fp = FalsePositives::new();
    fp.add_keep(5, 9);
    assert!(fp.keep_contains(5, 9));
    assert!(fp.keep_contains(9, 5));
    assert!(!fp.keep_contains(5, 5));
    assert!(!fp.fp_contains(5, 9));
    fp.add_false_positive(1, 2);
    assert!(fp.fp_contains(2, 1));
}

#[test]
fn fp_default_store_is_empty() {
    let fp = FalsePositives::default();
    assert_eq!(fp.keep.len(), 0);
    assert_eq!(fp.false_positives.len(), 0);
}
