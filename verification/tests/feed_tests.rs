use dircast::feed::{assemble, feed_to_xml, feed_url};
use dircast::search::{build_results, BucketEntry, FileObject};
use dircast::strutil::u64_to_string;

fn object(name: &str, size: u64, url: &str) -> FileObject {
    FileObject {
        name: name.to_string(),
        url: url.to_string(),
        e_tag: None,
        key: name.to_string(),
        length: size,
        mime_type: Some("audio/mp3".to_string()),
    }
}

#[test]
fn items_are_numbered_from_one_in_order() {
    let objects = vec![
        object("a.mp3", 1, "u-a"),
        object("b.mp3", 2, "u-b"),
        object("c.mp3", 3, "u-c"),
    ];
    let feed = assemble("Show", "Alice", "http://x", &objects);
    assert_eq!(feed.title, "Show");
    assert_eq!(feed.items.len(), 3);
    for (i, item) in feed.items.iter().enumerate() {
        assert_eq!(item.title, format!("Show {}", i + 1));
        assert_eq!(item.link, "http://x");
        assert_eq!(item.author, "Alice");
        assert_eq!(item.description, "");
    }
    assert_eq!(feed.items[0].guid, "a.mp3");
    assert_eq!(feed.items[2].guid, "c.mp3");
}

#[test]
fn empty_result_gives_empty_feed() {
    let feed = assemble("Show", "Alice", "http://x", &vec![]);
    assert_eq!(feed.items.len(), 0);
    let xml = feed_to_xml(&feed);
    assert!(!xml.contains("<item>"));
}

#[test]
fn search_to_feed_scenario() {
    // a bucket holding b.mp3 (500000 bytes) and a.mp3 (300000 bytes)
    let entries = vec![
        BucketEntry { key: "b.mp3".to_string(), size: 500000, e_tag: None },
        BucketEntry { key: "a.mp3".to_string(), size: 300000, e_tag: None },
    ];
    let urls = vec![Some("https://signed/b".to_string()), Some("https://signed/a".to_string())];
    let result = build_results(&entries, &urls);
    assert_eq!(result[0].name, "a.mp3");
    assert_eq!(result[1].name, "b.mp3");

    let feed = assemble("Show", "Alice", "http://x", &result);
    assert_eq!(feed.items.len(), 2);
    assert_eq!(feed.items[0].title, "Show 1");
    assert_eq!(feed.items[0].guid, "a.mp3");
    assert_eq!(feed.items[0].enclosure_length, "300000");
    assert_eq!(feed.items[0].enclosure_url, "https://signed/a");
    assert_eq!(feed.items[1].title, "Show 2");
    assert_eq!(feed.items[1].guid, "b.mp3");
    assert_eq!(feed.items[1].enclosure_length, "500000");
}

#[test]
fn feed_renders_to_rss_xml() {
    let objects = vec![object("a.mp3", 300000, "https://signed/a"), object("b.mp3", 500000, "https://signed/b")];
    let feed = assemble("Show", "Alice", "http://x", &objects);
    let xml = feed_to_xml(&feed);
    assert_eq!(xml.matches("<item>").count(), 2);
    assert!(xml.contains("Show 1"));
    assert!(xml.contains("Show 2"));
    assert!(xml.contains("a.mp3"));
    assert!(xml.contains("https://signed/b"));
    assert!(xml.contains("300000"));
    assert!(xml.contains("audio/mp3"));
}

#[test]
fn feed_link_has_the_documented_shape() {
    let url = feed_url("http://host:8080", "c2x1Zw");
    assert_eq!(url, "http://host:8080/gen_feed/c2x1Zw/feed.rss");
}

#[test]
fn decimal_rendering_is_exact() {
    assert_eq!(u64_to_string(0), "0");
    assert_eq!(u64_to_string(7), "7");
    assert_eq!(u64_to_string(10), "10");
    assert_eq!(u64_to_string(86400), "86400");
    assert_eq!(u64_to_string(18446744073709551615), "18446744073709551615");
}
