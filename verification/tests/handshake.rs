use hot_potato::base64::{b64url_decode, b64url_encode};
use hot_potato::federation::Peer;
use hot_potato::handshake::{
    consume_invite, consume_invite_at, create_invite, create_invite_at, invite_inviter_url, peer_fields_complete, DynamicPeers, Invite,
    INVITE_TTL_NANOS,
};

#[test]
fn invite_single_use_and_ttl() {
    let mut store = Vec::new();
    let inv = create_invite(&mut store, "http://inviter.example");
    assert!(inv.valid());
    assert!(consume_invite(&mut store, &inv.code));
    assert!(!consume_invite(&mut store, &inv.code)); // second use rejected
    assert!(!consume_invite(&mut store, "hp-bogus"));
}

#[test]
fn invite_code_carries_the_inviter_url() {
    let inv = Invite::issue("http://inviter.example", "0123abcd", 1_000);
    assert!(inv.code.starts_with("hp-0123abcd-"));
    assert_eq!(inv.created_at, 1_000);
    assert_eq!(inv.expires_at, 1_000 + INVITE_TTL_NANOS);
    assert!(!inv.used);
    assert_eq!(invite_inviter_url(&inv.code).as_deref(), Some("http://inviter.example"));
    // the payload is the JSON object {"url": ...}
    let tail = inv.code.rsplit('-').next().unwrap();
    assert_eq!(b64url_decode(tail).as_deref(), Some("{\"url\":\"http://inviter.example\"}"));
}

#[test]
fn invite_expires_after_ten_minutes() {
    let mut store = Vec::new();
    let inv = create_invite_at(&mut store, "http://a", "n1", 0);
    assert!(inv.valid_at(INVITE_TTL_NANOS - 1));
    assert!(!inv.valid_at(INVITE_TTL_NANOS));
    assert!(!consume_invite_at(&mut store, &inv.code, INVITE_TTL_NANOS));
    assert!(consume_invite_at(&mut store, &inv.code, 5));
    assert!(store[0].used);
}

#[test]
fn creating_an_invite_drops_the_expired_ones() {
    let mut store = Vec::new();
    create_invite_at(&mut store, "http://a", "n1", 0);
    create_invite_at(&mut store, "http://a", "n2", 10);
    assert_eq!(store.len(), 2);
    let fresh = create_invite_at(&mut store, "http://a", "n3", INVITE_TTL_NANOS + 5);
    assert_eq!(store.len(), 2);
    assert_eq!(store[1].code, fresh.code);
    assert!(store[0].code.starts_with("hp-n2-"));
}

#[test]
fn an_invite_at_the_end_of_time_saturates() {
    let inv = Invite::issue("http://a", "n", i128::MAX - 5);
    assert_eq!(inv.expires_at, i128::MAX);
}

#[test]
fn garbage_codes_carry_no_url() {
    assert!(invite_inviter_url("hp-bogus").is_none());
    assert!(invite_inviter_url("hp-x-!!!").is_none());
    assert!(invite_inviter_url("").is_none());
}

#[test]
fn b64url_roundtrips_text() {
    for s in ["", "a", "ab", "abc", "hello world", "{\"url\":\"http://x:8080/?q=1\"}", "potato \u{1f954}"] {
        let e = b64url_encode(s);
        assert!(!e.contains('=') && !e.contains('+') && !e.contains('/'));
        assert_eq!(b64url_decode(&e).as_deref(), Some(s));
    }
    assert_eq!(b64url_encode("hello"), "aGVsbG8");
    assert_eq!(b64url_encode("\u{fb}\u{ff}"), "w7vDvw");
}

#[test]
fn b64url_decode_refuses_foreign_bytes_and_bad_utf8() {
    assert!(b64url_decode("a+b/").is_none());
    assert!(b64url_decode("aGVsbG8=").is_some()); // '=' reads as zero bits
    assert!(b64url_decode("_w").is_none()); // 0xff is not UTF-8
}

fn peer(name: &str, agents: &[&str]) -> Peer {
    Peer {
        name: name.into(),
        url: format!("http://{name}"),
        token: String::new(),
        agents: agents.iter().map(|a| a.to_string()).collect(),
    }
}

#[test]
fn dynamic_peers_replace_by_name() {
    let mut dp = DynamicPeers::new();
    dp.add(peer("fleet", &["patricia"]));
    dp.add(peer("other", &["diana"]));
    dp.add(peer("fleet", &["victoria"]));
    assert_eq!(dp.len(), 2);
    let all = dp.all();
    assert_eq!(all[0].name, "other");
    assert_eq!(all[1].agents, ["victoria"]);
    assert!(dp.contains_agent("patricia").is_none());
    assert_eq!(dp.contains_agent("victoria").unwrap().name, "fleet");
}

#[test]
fn urls_whose_payload_holds_a_dash_read_back_too() {
    for url in ["http://aa~", "http://x/~", "http://inviter.example"] {
        let inv = Invite::new(url);
        assert_eq!(invite_inviter_url(&inv.code).as_deref(), Some(url));
    }
    let inv = Invite::issue("http://aa~", "0123abcd", 7);
    assert!(inv.code["hp-0123abcd-".len()..].contains('-'));
    assert_eq!(invite_inviter_url(&inv.code).as_deref(), Some("http://aa~"));
}

#[test]
fn a_pool_description_needs_a_name_a_url_and_an_agent() {
    let agents = vec!["diana".to_string()];
    assert!(peer_fields_complete("fleet", "http://fleet", &agents));
    assert!(!peer_fields_complete("", "http://fleet", &agents));
    assert!(!peer_fields_complete("fleet", "", &agents));
    assert!(!peer_fields_complete("fleet", "http://fleet", &Vec::new()));
}

#[test]
fn the_invite_payload_escapes_the_url_as_json_does() {
    let mut store = Vec::new();
    let inv = create_invite_at(&mut store, "http://a\"b\\c\n", "n1", 0);
    let payload = inv.code.splitn(3, '-').nth(2).unwrap();
    assert_eq!(b64url_decode(payload).as_deref(), Some("{\"url\":\"http://a\\\"b\\\\c\\n\"}"));
    assert_eq!(invite_inviter_url(&inv.code).as_deref(), Some("http://a\"b\\c\n"));
}

#[test]
fn b64url_lengths_follow_the_unpadded_rule() {
    let lens: Vec<usize> = ["", "a", "ab", "abc", "abcd", "abcde", "abcdef"].iter().map(|s| b64url_encode(s).len()).collect();
    assert_eq!(lens, vec![0, 2, 3, 4, 6, 7, 8]);
    assert!(b64url_encode("??>>~~").chars().all(|c| c.is_ascii_alphanumeric() || c == '-' || c == '_'));
}
