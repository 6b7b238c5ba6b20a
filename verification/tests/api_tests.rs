//! Requests and answers.

use rzid::api::{
    codecs_handler, error_type, health_handler, register_handler, shard_nodes_handler,
    shard_segments_handler, update_segments_handler, versions_handler, zone_routers_handler,
    zone_segments_handler, zone_shards_handler, RegisterRequest, UpdateSegmentsRequest,
};
use rzid::codecs::{load_codecs_yaml, Codecs};
use rzid::config::Config;
use rzid::error::RzError;
use rzid::state::AppState;
use rzid::text::decimal_text;

fn text(s: &str) -> String {
    s.to_string()
}

fn request(kind: &str, id: &str, zone: &str, shard: Option<&str>) -> RegisterRequest {
    RegisterRequest {
        kind: text(kind),
        id: text(id),
        zone: text(zone),
        shard: shard.map(text),
    }
}

fn empty() -> AppState {
    AppState::new(None, 60, 100, Codecs::default(), 0)
}

#[test]
fn health_is_ok() {
    assert_eq!(health_handler(), "OK");
}

#[test]
fn router_needs_no_shard() {
    let mut state = empty();
    assert_eq!(
        register_handler(&mut state, request("router", "r1", "eu", None), 1),
        Ok(true)
    );
    assert_eq!(
        register_handler(&mut state, request("router", "r1", "eu", None), 2),
        Ok(false)
    );
    let answer = zone_routers_handler(&state, "eu");
    assert_eq!(answer.version, 1);
    assert_eq!(answer.routers, vec!["r1"]);
}

#[test]
fn bridge_and_node_register_under_their_shard() {
    let mut state = empty();
    assert_eq!(
        register_handler(&mut state, request("bridge", "b1", "eu", Some("a")), 1),
        Ok(true)
    );
    assert_eq!(
        register_handler(&mut state, request("node", "n1", "eu", Some("a")), 1),
        Ok(true)
    );
    let answer = zone_shards_handler(&state, "eu");
    assert_eq!(answer.version, 1);
    assert_eq!(answer.shards.len(), 1);
    assert_eq!(answer.shards.get("a").unwrap().bridges, vec!["b1"]);
    let answer = shard_nodes_handler(&state, "a").unwrap();
    assert_eq!(answer.version, 1);
    assert_eq!(answer.nodes, vec!["n1"]);
}

#[test]
fn bridge_without_shard_is_refused() {
    let mut state = empty();
    let refusal = register_handler(&mut state, request("bridge", "b1", "eu", None), 1).unwrap_err();
    assert_eq!(refusal.status, 400);
    assert_eq!(refusal.error, "shard is required for bridge");
    assert_eq!(versions_handler(&state).global_version, 0);
    assert!(!state.is_dirty());
}

#[test]
fn node_without_shard_is_refused() {
    let mut state = empty();
    let refusal = register_handler(&mut state, request("node", "n1", "eu", None), 1).unwrap_err();
    assert_eq!(refusal.status, 400);
    assert_eq!(refusal.error, "shard is required for node");
    assert_eq!(versions_handler(&state).global_version, 0);
}

#[test]
fn unknown_kind_is_refused() {
    let mut state = empty();
    let refusal =
        register_handler(&mut state, request("edge", "e1", "eu", Some("a")), 1).unwrap_err();
    assert_eq!(refusal.status, 400);
    assert_eq!(refusal.error, "unknown registration kind: edge");
    assert_eq!(versions_handler(&state).global_version, 0);
}

#[test]
fn unknown_shards_are_not_found() {
    let state = empty();
    let refusal = shard_segments_handler(&state, "a").unwrap_err();
    assert_eq!((refusal.status, refusal.error), (404, text("unknown shard")));
    let refusal = shard_nodes_handler(&state, "a").unwrap_err();
    assert_eq!((refusal.status, refusal.error), (404, text("unknown shard")));
}

#[test]
fn segments_are_published_and_read() {
    let mut state = empty();
    let update = || UpdateSegmentsRequest {
        zone: text("eu"),
        segments: vec![text("y"), text("x"), text("y")],
    };
    assert!(update_segments_handler(&mut state, text("a"), update()));
    assert!(!update_segments_handler(&mut state, text("a"), update()));
    let answer = shard_segments_handler(&state, "a").unwrap();
    assert_eq!(answer.version, 1);
    assert_eq!(answer.zone, "eu");
    assert_eq!(answer.segments, vec!["x", "y"]);
    let answer = zone_segments_handler(&state, "eu");
    assert_eq!(answer.version, 1);
    assert_eq!(answer.segments, vec!["x", "y"]);
    assert_eq!(versions_handler(&state).global_version, 2);
}

#[test]
fn codecs_are_handed_out_with_their_hash() {
    let codecs = load_codecs_yaml(vec![text("a")]).unwrap();
    let hash = codecs.hash;
    let state = AppState::new(None, 60, 100, codecs, 0);
    let answer = codecs_handler(&state);
    assert_eq!(answer.rate_features, vec!["a"]);
    assert_eq!(answer.hash, hash);
}

#[test]
fn failed_requests_have_a_class() {
    assert_eq!(error_type(200), None);
    assert_eq!(error_type(399), None);
    assert_eq!(error_type(400), Some("client_error"));
    assert_eq!(error_type(499), Some("client_error"));
    assert_eq!(error_type(500), Some("server_error"));
    assert_eq!(error_type(503), Some("server_error"));
}

#[test]
fn errors_have_a_message_and_a_status() {
    let config = RzError::Config(text("a"));
    assert_eq!(config.message(), "configuration error: a");
    assert_eq!(config.status(), 400);
    let io = RzError::Io(text("b"));
    assert_eq!(io.message(), "I/O error: b");
    assert_eq!(io.status(), 500);
    let json = RzError::Json(text("c"));
    assert_eq!(json.message(), "JSON error: c");
    assert_eq!(json.status(), 400);
}

fn config() -> Config {
    Config {
        addr: text("0.0.0.0"),
        port: 8080,
        state_file: text("state.json"),
        buffer_ms: 1000,
        heartbeat_timeout_secs: 60,
        codecs_path: text("codecs.yml"),
    }
}

#[test]
fn listen_address_is_put_together() {
    assert_eq!(config().socket_addr(), "0.0.0.0:8080");
    assert_eq!(
        config().invalid_address("invalid socket address syntax"),
        RzError::Config(text(
            "invalid listen address '0.0.0.0:8080': invalid socket address syntax"
        ))
    );
}

#[test]
fn codecs_file_has_to_be_a_file() {
    assert_eq!(config().validate_codecs_file(true, true), Ok(()));
    assert_eq!(
        config().validate_codecs_file(false, false),
        Err(RzError::Config(text("Codecs file not found: codecs.yml")))
    );
    assert_eq!(
        config().validate_codecs_file(true, false),
        Err(RzError::Config(text("Codecs path is not a file: codecs.yml")))
    );
}

#[test]
fn numbers_are_written_in_decimal() {
    assert_eq!(decimal_text(0), "0");
    assert_eq!(decimal_text(907), "907");
    assert_eq!(decimal_text(u64::MAX), "18446744073709551615");
}
