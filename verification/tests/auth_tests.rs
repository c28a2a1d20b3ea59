use dircast::auth::{make_auth_cookie, parse_auth_cookie, verify};
use dircast::types::Credentials;
use htpasswd_verify::md5::{format_hash, md5_apr1_encode};

fn creds(user: &str, pass: &str) -> Credentials {
    Credentials { user: user.to_string(), pass: pass.to_string() }
}

fn store_with_alice() -> String {
    let hash = format_hash(md5_apr1_encode("correct", "saltsalt").as_str(), "saltsalt");
    format!("alice:{}\nbob:{}", hash, format_hash(md5_apr1_encode("other", "somesalt").as_str(), "somesalt"))
}

#[test]
fn auth_gate_accepts_correct_password() {
    let store = store_with_alice();
    assert!(verify(&store, &creds("alice", "correct")));
}

#[test]
fn auth_gate_rejects_wrong_password() {
    let store = store_with_alice();
    assert!(!verify(&store, &creds("alice", "wrong")));
}

#[test]
fn auth_gate_rejects_unknown_user_indistinguishably() {
    let store = store_with_alice();
    let unknown = verify(&store, &creds("mallory", "correct"));
    let wrong = verify(&store, &creds("alice", "wrong"));
    // both are plain `false`: no distinguishable error for unknown users
    assert_eq!(unknown, wrong);
    assert!(!unknown);
}

#[test]
fn cookie_round_trip() {
    let c = creds("alice", "secret");
    let cookie = make_auth_cookie(&c);
    assert_eq!(cookie, "alice:secret");
    let parsed = parse_auth_cookie(&cookie).expect("well-formed cookie must parse");
    assert_eq!(parsed.user, "alice");
    assert_eq!(parsed.pass, "secret");
}

#[test]
fn cookie_requires_exactly_two_fields() {
    assert!(parse_auth_cookie("alice").is_none());
    assert!(parse_auth_cookie("a:b:c").is_none());
    assert!(parse_auth_cookie("").is_none());
    let parsed = parse_auth_cookie(":").expect("one colon splits into two empty fields");
    assert_eq!(parsed.user, "");
    assert_eq!(parsed.pass, "");
}

#[test]
fn auth_gate_accepts_bcrypt_entry() {
    let store =
        "carol:$2y$05$nC6nErr9XZJuMJ57WyCob.EuZEjylDt2KaHfbfOtyb.EgL1I2jCVa".to_string();
    assert!(verify(&store, &creds("carol", "password")));
    assert!(!verify(&store, &creds("carol", "wrong")));
}

#[test]
fn crlf_store_answers_rather_than_failing() {
    // the parser splits on '\n' alone, so the carriage return stays inside
    // the hash field and the digest text no longer matches
    let hash = format_hash(md5_apr1_encode("correct", "saltsalt").as_str(), "saltsalt");
    let store = format!("alice:{}\r\nbob:other\r\n", hash);
    assert!(!verify(&store, &creds("alice", "correct")));
    assert!(!verify(&store, &creds("bob", "anything")));
}

#[test]
fn auth_gate_accepts_unix_crypt_entry() {
    let store = "dave:xOAFZqRz5RduI".to_string();
    assert!(verify(&store, &creds("dave", "password")));
    assert!(!verify(&store, &creds("dave", "wrong")));
}
