use dircast::slug::{decode_slug, encode_slug};
use dircast::types::{Credentials, SearchRequest};

fn req(author: &str, search: &str, title: &str) -> SearchRequest {
    SearchRequest { author: author.to_string(), search: search.to_string(), title: title.to_string() }
}

fn creds(user: &str, pass: &str) -> Credentials {
    Credentials { user: user.to_string(), pass: pass.to_string() }
}

fn assert_round_trip(r: SearchRequest, c: Credentials) {
    let slug = encode_slug(&r, &c);
    let (r2, c2) = decode_slug(&slug).expect("a freshly encoded slug must decode");
    assert_eq!(r2.author, r.author);
    assert_eq!(r2.search, r.search);
    assert_eq!(r2.title, r.title);
    assert_eq!(c2.user, c.user);
    assert_eq!(c2.pass, c.pass);
}

#[test]
fn round_trip_plain_fields() {
    assert_round_trip(req("Alice", "mp3", "Show"), creds("alice", "secret"));
}

#[test]
fn round_trip_special_characters() {
    assert_round_trip(req("a:b", "c\\d", "e:f\\"), creds(":", "\\"));
    assert_round_trip(req("", "", ""), creds("", ""));
    assert_round_trip(req("h\u{e9}llo", "\u{65e5}\u{672c}", "emoji \u{1f600}"), creds("u", "p"));
}

#[test]
fn slug_is_url_path_safe() {
    let slug = encode_slug(&req("a/b+c", "q:r", "t=u"), &creds("user", "pa/ss"));
    for ch in slug.chars() {
        assert!(
            ch.is_ascii_alphanumeric() || ch == '-' || ch == '_',
            "unexpected character {:?} in slug",
            ch
        );
    }
}

#[test]
fn tamper_rejection_single_character() {
    let r = req("Alice", "mp3", "Show");
    let c = creds("alice", "secret");
    let slug = encode_slug(&r, &c);
    for i in 0..slug.len() {
        let mut tampered: Vec<char> = slug.chars().collect();
        let replacement = if tampered[i] == 'A' { 'B' } else { 'A' };
        tampered[i] = replacement;
        let tampered: String = tampered.into_iter().collect();
        assert_ne!(tampered, slug);
        match decode_slug(&tampered) {
            Err(_) => {}
            Ok((r2, c2)) => {
                let same = r2.author == r.author && r2.search == r.search && r2.title == r.title
                    && c2.user == c.user && c2.pass == c.pass;
                assert!(!same, "tampered slug reproduced the original fields");
            }
        }
    }
}

#[test]
fn decode_rejects_non_base64() {
    assert!(decode_slug("!!!").is_err());
    assert!(decode_slug("ab cd").is_err());
}

#[test]
fn decode_rejects_wrong_structure() {
    // valid URL-safe base64, but not the canonical five-field byte form
    assert!(decode_slug("").is_err());
    assert!(decode_slug("AAAA").is_err());
    assert!(decode_slug("aGVsbG8").is_err()); // "hello"
}

#[test]
fn distinct_inputs_give_distinct_slugs() {
    let s1 = encode_slug(&req("a", "b", "c"), &creds("d", "e"));
    let s2 = encode_slug(&req("a", "b", "c"), &creds("d", "f"));
    let s3 = encode_slug(&req("a:b", "", "c"), &creds("d", "e"));
    let s4 = encode_slug(&req("a", "b:c", ""), &creds("d", "e"));
    assert_ne!(s1, s2);
    assert_ne!(s1, s3);
    assert_ne!(s3, s4);
}

#[test]
fn slug_bytes_have_the_canonical_form() {
    // the byte form behind the URL-safe text: fields joined by ':', with
    // ':' escaped as "\1" and '\' escaped as "\2"
    let slug = encode_slug(&req("a", "b", "c"), &creds("d", "e"));
    assert_eq!(base64_url::decode(&slug).unwrap(), b"a:b:c:d:e".to_vec());

    let slug = encode_slug(&req("x:y", "p\\q", ""), &creds("", ""));
    assert_eq!(base64_url::decode(&slug).unwrap(), b"x\\1y:p\\2q:::".to_vec());
}

#[test]
fn decode_rejects_padded_base64() {
    let slug = encode_slug(&req("Alice", "mp3", "Show"), &creds("alice", "secret"));
    let padded = format!("{}=", slug);
    assert!(decode_slug(&padded).is_err());
}
