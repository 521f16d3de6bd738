use recommender::config::database::{default_protocol, DatabaseConfig};
use recommender::config::server::ServerConfig;
use recommender::config::store::{Credential, RedisConfig};
use recommender::resources::errors::Internal;

#[test]
fn database_url_joins_protocol_host_and_port() {
    let cfg = DatabaseConfig {
        host: "localhost".to_string(),
        port: 50051,
        protocol: "http".to_string(),
    };
    assert_eq!(cfg.get_connection_url(), "http://localhost:50051");
}

#[test]
fn database_url_with_port_zero() {
    let cfg = DatabaseConfig {
        host: "db".to_string(),
        port: 0,
        protocol: "https".to_string(),
    };
    assert_eq!(cfg.get_connection_url(), "https://db:0");
}

#[test]
fn default_protocol_is_http() {
    assert_eq!(default_protocol(), "http");
    assert_eq!(recommender::config::store::default_protocol(), "http");
}

#[test]
fn server_url_listens_on_loopback() {
    assert_eq!(ServerConfig { port: 8080 }.get_url(), "[::1]:8080");
    assert_eq!(ServerConfig { port: u32::MAX }.get_url(), "[::1]:4294967295");
}

#[test]
fn credential_text() {
    let c = Credential {
        username: "alice".to_string(),
        password: "s3cret".to_string(),
    };
    assert_eq!(c.get_credential(), "alice:s3cret@");
}

#[test]
fn redis_url_bare_host() {
    let cfg = RedisConfig {
        host: "cache".to_string(),
        port: None,
        database: None,
        credentials: None,
    };
    assert_eq!(cfg.get_connection_url(), "redis://cache");
}

#[test]
fn redis_url_with_every_part() {
    let cfg = RedisConfig {
        host: "cache".to_string(),
        port: Some(6379),
        database: Some("2".to_string()),
        credentials: Some(Credential {
            username: "u".to_string(),
            password: "p".to_string(),
        }),
    };
    assert_eq!(cfg.get_connection_url(), "redis://u:p@cache:6379/2");
}

#[test]
fn internal_error_text() {
    let e = Internal("boom".to_string());
    assert_eq!(e.to_string(), "INTERNAL(boom)");
}
