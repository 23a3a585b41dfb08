use kvs::{data_file_ids, segment_id, stale_segments};

#[test]
fn segment_names_parse() {
    assert_eq!(segment_id("store_file_0.txt"), Some(0));
    assert_eq!(segment_id("store_file_12.txt"), Some(12));
    assert_eq!(segment_id("store_file_18446744073709551615.txt"), Some(u64::MAX));
    assert_eq!(segment_id("store_file_18446744073709551616.txt"), None);
    assert_eq!(segment_id("store_file_012.txt"), None);
    assert_eq!(segment_id("store_file_.txt"), None);
    assert_eq!(segment_id("store_file_1a.txt"), None);
    assert_eq!(segment_id("store_file_7.log"), None);
    assert_eq!(segment_id("notes.txt"), None);
}

#[test]
fn segment_ids_ascending() {
    let names: Vec<String> = ["store_file_10.txt", "x.txt", "store_file_2.txt", "store_file_0.txt"]
        .iter()
        .map(|s| s.to_string())
        .collect();
    assert_eq!(data_file_ids(&names), vec![0, 2, 10]);
    assert_eq!(data_file_ids(&Vec::new()), Vec::<u64>::new());
    let twice = vec!["store_file_2.txt".to_string(), "store_file_2.txt".to_string()];
    assert_eq!(data_file_ids(&twice), vec![2]);
}

#[test]
fn stale_segments_below_new_one() {
    let mut r = stale_segments(&vec![0, 3, 5, 6, 7], 6);
    r.sort();
    assert_eq!(r, vec![0, 3, 5]);
    assert!(stale_segments(&vec![4], 4).is_empty());
}
