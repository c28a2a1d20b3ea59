use dircast::search::{bucket_search, build_results, BucketEntry};

fn entry(key: &str, size: u64) -> BucketEntry {
    BucketEntry { key: key.to_string(), size, e_tag: None }
}

#[test]
fn results_are_sorted_ascending_by_name() {
    let entries = vec![entry("b.mp3", 2), entry("c.mp3", 3), entry("a.mp3", 1)];
    let urls = vec![
        Some("u-b".to_string()),
        Some("u-c".to_string()),
        Some("u-a".to_string()),
    ];
    let r = build_results(&entries, &urls);
    let names: Vec<&str> = r.iter().map(|o| o.name.as_str()).collect();
    assert_eq!(names, vec!["a.mp3", "b.mp3", "c.mp3"]);
    // the signed URL follows its entry through the sort
    assert_eq!(r[0].url, "u-a");
    assert_eq!(r[2].url, "u-c");
}

#[test]
fn results_keep_entry_fields() {
    let entries = vec![BucketEntry {
        key: "x.mp3".to_string(),
        size: 12345,
        e_tag: Some("etag-1".to_string()),
    }];
    let urls = vec![Some("signed".to_string())];
    let r = build_results(&entries, &urls);
    assert_eq!(r.len(), 1);
    assert_eq!(r[0].name, "x.mp3");
    assert_eq!(r[0].key, "x.mp3");
    assert_eq!(r[0].length, 12345);
    assert_eq!(r[0].url, "signed");
    assert_eq!(r[0].e_tag.as_deref(), Some("etag-1"));
    assert_eq!(r[0].mime_type.as_deref(), Some("audio/mp3"));
}

#[test]
fn signing_failures_are_dropped() {
    let entries = vec![entry("a.mp3", 1), entry("b.mp3", 2), entry("c.mp3", 3)];
    let urls = vec![Some("u-a".to_string()), None, Some("u-c".to_string())];
    let r = build_results(&entries, &urls);
    let names: Vec<&str> = r.iter().map(|o| o.name.as_str()).collect();
    assert_eq!(names, vec!["a.mp3", "c.mp3"]);
}

#[test]
fn unconfigured_store_degrades_to_empty() {
    let r = bucket_search(None, None);
    assert!(r.is_empty());
}

#[test]
fn missing_listing_degrades_to_empty() {
    let r = bucket_search(None, Some(vec![entry("a.mp3", 1)]));
    assert!(r.is_empty());
}
