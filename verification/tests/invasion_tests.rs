use contest_solvers::invasion::{chain_from_json, is_suc, to_hex};
use crypto::hmac::Hmac;
use crypto::mac::Mac;
use crypto::sha2::Sha256;

fn hmac_hex(key: &str, msg: &str) -> String {
    let mut h = Hmac::new(Sha256::new(), key.as_bytes());
    h.input(msg.as_bytes());
    let mut buf = [0u8; 32];
    h.raw_result(&mut buf);
    String::from_utf8(to_hex(&buf)).unwrap()
}

#[test]
fn hex_is_lowercase_two_digits_per_byte() {
    assert_eq!(to_hex(&[0x00, 0x0f, 0xa5, 0xff]), b"000fa5ff".to_vec());
    assert_eq!(to_hex(&[]), Vec::<u8>::new());
}

#[test]
fn follower_is_recognised_by_its_code() {
    let prev = ("key".to_string(), "anything".to_string());
    let next = (
        "f7bc83f430538424b13298e6aa6fb143ef4d59a14946175997479dbc2d1a3cd8".to_string(),
        "The quick brown fox jumps over the lazy dog".to_string(),
    );
    assert!(is_suc(&prev, &next));
    assert!(!is_suc(&next, &prev));
}

#[test]
fn a_wrong_code_does_not_follow() {
    let prev = ("key".to_string(), "x".to_string());
    let next = ("key".to_string(), "The quick brown fox jumps over the lazy dog".to_string());
    assert!(!is_suc(&prev, &next));
}

fn chain_doc() -> (String, String, String) {
    let id1 = hmac_hex("start", "b");
    let id2 = hmac_hex(&id1, "c");
    let doc = format!("[[\"{}\",\"c\"],[\"start\",\"a\"],[\"{}\",\"b\"]]", id2, id1);
    (doc, id1, id2)
}

#[test]
fn chain_is_put_in_order_from_its_start() {
    let (doc, _, _) = chain_doc();
    let c = chain_from_json(&doc, "start").unwrap();
    let texts: Vec<&str> = c.iter().map(|p| p.1.as_str()).collect();
    assert_eq!(texts, vec!["a", "b", "c"]);
}

#[test]
fn chain_is_put_in_order_from_the_middle() {
    let (doc, id1, _) = chain_doc();
    let c = chain_from_json(&doc, &id1).unwrap();
    let texts: Vec<&str> = c.iter().map(|p| p.1.as_str()).collect();
    assert_eq!(texts, vec!["a", "b", "c"]);
}

#[test]
fn unknown_start_gives_nothing() {
    let (doc, _, _) = chain_doc();
    assert!(chain_from_json(&doc, "nobody").is_none());
}

#[test]
fn bad_json_gives_nothing() {
    assert!(chain_from_json("[[\"a\"", "a").is_none());
}
