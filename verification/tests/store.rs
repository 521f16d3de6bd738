use recommender::config::store::RedisConfig;
use recommender::store::alerts::{alert_member, alert_members, decode_alerts, parse_alert_member};
use recommender::store::users::{
    decode_similarities, decode_user_ratings, encode_user_ratings, other_user_ids, parse_rating_value,
    rating_value, user_id_of_key,
};
use recommender::store::Redis;

fn s(x: &str) -> String {
    x.to_string()
}

#[test]
fn redis_handle_for_a_valid_url() {
    let cfg = RedisConfig { host: s("localhost"), port: Some(6379), database: None, credentials: None };
    assert!(Redis::new(cfg).is_ok());
}

#[test]
fn redis_handle_talks_to_the_configured_store() {
    let cfg = RedisConfig { host: s("cache.example"), port: Some(6380), database: None, credentials: None };
    let handle = Redis::new(cfg).expect("the url is accepted");
    assert_eq!(
        handle.client().get_connection_info().addr,
        redis::ConnectionAddr::Tcp(s("cache.example"), 6380)
    );
}

#[test]
fn redis_handle_refused_without_host() {
    let cfg = RedisConfig { host: s(""), port: None, database: None, credentials: None };
    let err = Redis::new(cfg).err().expect("an empty host is refused");
    assert!(err.to_string().starts_with("INTERNAL("));
}

#[test]
fn redis_handle_refused_for_a_malformed_url() {
    let cfg = RedisConfig { host: s("bad host"), port: None, database: None, credentials: None };
    assert!(Redis::new(cfg).is_err());
}

#[test]
fn zip_pairs_keys_and_values() {
    let pairs = Redis::zip_key_value(vec![s("k1"), s("v1"), s("k2"), s("v2")]);
    assert_eq!(pairs, vec![(s("k1"), s("v1")), (s("k2"), s("v2"))]);
}

#[test]
fn zip_drops_a_trailing_key() {
    let pairs = Redis::zip_key_value(vec![1, 2, 3]);
    assert_eq!(pairs, vec![(1, 2)]);
    assert!(Redis::zip_key_value(Vec::<u8>::new()).is_empty());
}

#[test]
fn user_keys() {
    assert_eq!(Redis::user_preferences_key(12), "users.12.preferences");
    assert_eq!(Redis::user_ratings_key(0), "users.0.ratings");
    assert_eq!(Redis::user_similarity_key(4294967295), "users.4294967295.similarity");
    assert_eq!(Redis::user_preferences_pattern(), "users.*.preferences");
    assert_eq!(Redis::alerts_key(), "alerts");
}

#[test]
fn user_id_read_back_from_key() {
    assert_eq!(user_id_of_key(&Redis::user_preferences_key(77)), Some(77));
    assert_eq!(user_id_of_key("users.x.preferences"), None);
    assert_eq!(user_id_of_key("users"), None);
}

#[test]
fn other_ids_skip_the_user() {
    let keys = vec![s("users.1.preferences"), s("users.2.preferences"), s("users.3.preferences")];
    assert_eq!(other_user_ids(&keys, 2), Some(vec![1, 3]));
    let bad = vec![s("users.1.preferences"), s("users.?.preferences")];
    assert_eq!(other_user_ids(&bad, 2), None);
}

#[test]
fn alert_member_round_trip() {
    let tag = (s("CVE-2021-1"), s("apache"), s("httpd"));
    let member = alert_member(&tag);
    assert_eq!(member, "CVE-2021-1:apache:httpd");
    assert_eq!(parse_alert_member(&member), Some(tag));
    assert_eq!(parse_alert_member("only:two"), None);
    assert_eq!(parse_alert_member("a:b:c:d"), Some((s("a"), s("b"), s("c"))));
}

#[test]
fn alert_members_in_order() {
    let tags = vec![(s("a"), s("b"), s("c")), (s("d"), s("e"), s("f"))];
    assert_eq!(alert_members(&tags), vec![s("a:b:c"), s("d:e:f")]);
}

#[test]
fn decode_alert_reply() {
    let reply = vec![s("a:p:q"), s("3.5"), s("b:r:t"), s("1")];
    assert_eq!(
        decode_alerts(reply),
        Some(vec![((s("a"), s("p"), s("q")), s("3.5")), ((s("b"), s("r"), s("t")), s("1"))])
    );
    assert_eq!(decode_alerts(vec![s("broken"), s("1")]), None);
}

#[test]
fn rating_values() {
    assert_eq!(rating_value((true, false, true)), "true:false:true");
    assert_eq!(parse_rating_value("false:true:false"), Some((false, true, false)));
    assert_eq!(parse_rating_value("true:true"), None);
    assert_eq!(parse_rating_value("true:yes:false"), None);
    for a in [false, true] {
        for b in [false, true] {
            for c in [false, true] {
                assert_eq!(parse_rating_value(&rating_value((a, b, c))), Some((a, b, c)));
            }
        }
    }
}

#[test]
fn user_ratings_write_then_read() {
    let written = vec![(s("a"), (true, false, false)), (s("b"), (false, true, true)), (s("a"), (false, true, false))];
    let stored = encode_user_ratings(&written);
    assert_eq!(stored[0], (s("a"), s("true:false:false")));
    let mut reply = Vec::new();
    for (k, v) in stored {
        reply.push(k);
        reply.push(v);
    }
    let read = decode_user_ratings(reply).expect("every value reads");
    assert_eq!(read.len(), 2);
    assert_eq!(read.get(&s("a")), Some(&(false, true, false)));
    assert_eq!(read.get(&s("b")), Some(&(false, true, true)));
    assert_eq!(decode_user_ratings(vec![s("a"), s("nope")]).map(|m| m.len()), None);
}

#[test]
fn similarities_reply() {
    let reply = vec![s("4"), s("0.5"), s("9"), s("0.25")];
    assert_eq!(decode_similarities(reply), Some(vec![(4, s("0.5")), (9, s("0.25"))]));
    assert_eq!(decode_similarities(vec![s("x"), s("1")]), None);
}

#[test]
fn redis_handle_from_an_opened_client() {
    let cfg = RedisConfig { host: s("h"), port: None, database: None, credentials: None };
    let opened = redis::Client::open("redis://h");
    assert!(Redis::from_client(cfg.clone(), opened).is_ok());
    let failed = redis::Client::open("http://h");
    assert!(Redis::from_client(cfg, failed).is_err());
}

#[test]
fn user_ratings_read_back_in_another_order() {
    let written = vec![(s("a"), (true, false, false)), (s("b"), (false, true, true)), (s("c"), (false, false, true))];
    let stored = encode_user_ratings(&written);
    let mut reply = Vec::new();
    for (k, v) in stored.into_iter().rev() {
        reply.push(k);
        reply.push(v);
    }
    let read = decode_user_ratings(reply).expect("every value reads");
    assert_eq!(read.len(), 3);
    for (k, v) in &written {
        assert_eq!(read.get(k), Some(v));
    }
}
