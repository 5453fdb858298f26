use rebound::conf::preserve_hdrs_default;
use rebound::conf::preserve_path_default;
use rebound::conf::preserve_query_default;
use rebound::response::ClientError;
use rebound::response::ReboundResponse;
use rebound::strmap::StrMap;
use rebound::worker::choose_response;

fn error_response() -> ReboundResponse {
    ReboundResponse::error_body(502, b"bad gateway".to_vec())
}

#[test]
fn upstream_success_is_written_back() {
    let mut headers = StrMap::new();
    headers.insert("Content-Length".to_string(), "2".to_string());
    let upstream = ReboundResponse { status: 200, headers, body: b"ok".to_vec() };
    let r = choose_response(Some(Ok(upstream)), error_response());
    assert_eq!(r.status, 200);
    assert_eq!(r.body, b"ok".to_vec());
    assert_eq!(r.headers.get("Content-Length").unwrap(), "2");
}

#[test]
fn upstream_failure_writes_the_error_response() {
    let r = choose_response(Some(Err(ClientError::Connect)), error_response());
    assert_eq!(r.status, 502);
    assert_eq!(r.body, b"bad gateway".to_vec());
}

#[test]
fn every_failure_kind_writes_the_error_response() {
    for e in [ClientError::Connect, ClientError::Tls, ClientError::Timeout, ClientError::BodyRead]
    {
        let r = choose_response(Some(Err(e)), error_response());
        assert_eq!(r.status, 502);
    }
}

#[test]
fn no_match_writes_the_error_response() {
    let r = choose_response(None, error_response());
    assert_eq!(r.status, 502);
    assert_eq!(r.headers.len(), 0);
}

#[test]
fn rule_transform_defaults_are_preserving() {
    assert!(preserve_hdrs_default());
    assert!(preserve_query_default());
    assert!(preserve_path_default());
}
