use codex_nexus::codex::read_message;
use codex_nexus::collector_ipc::{
    outcome_of, read_limited_line, request_id, respond, respond_unreadable, route_request,
    status_from_connection, validate_endpoint, write_request, write_response, CollectorMethod,
    LineReader, LineStep, RegisteredCollector, Route, MAX_REQUEST_BYTES, REQUEST_TOO_LONG,
    RESPONSE_TOO_LONG,
};
use codex_nexus::json::Json;

#[test]
fn protocol_methods_are_explicit_and_stable() {
    assert!(CollectorMethod::parse("GET_STATUS").is_ok());
    assert!(CollectorMethod::parse("WRITE_DATABASE").is_err());
}

#[test]
fn request_reader_is_newline_delimited_and_bounded() {
    assert_eq!(read_limited_line(b"{}\ntrailing").unwrap(), b"{}".to_vec());
    assert!(read_limited_line(&vec![b'x'; MAX_REQUEST_BYTES + 1]).is_err());
    assert!(read_limited_line(b"\n").is_err());
}

#[test]
fn a_line_at_the_limit_is_read() {
    let mut line = vec![b'x'; MAX_REQUEST_BYTES];
    line.push(b'\n');
    assert_eq!(read_limited_line(&line).unwrap().len(), MAX_REQUEST_BYTES);
    assert_eq!(read_limited_line(b"abc").unwrap(), b"abc".to_vec());
    assert!(LineReader::new().finish().is_err());
    let mut reader = LineReader::new();
    for _ in 0..MAX_REQUEST_BYTES {
        assert_eq!(reader.push(b'x'), LineStep::More);
    }
    assert_eq!(reader.push(b'x'), LineStep::TooLong);
    assert_eq!(reader.push(b'\n'), LineStep::Ended);
}

#[test]
fn what_is_sent_is_read_back_whole() {
    let response = br#"{"id":"1","ok":true}"#.to_vec();
    let mut stream = write_response(response.clone()).unwrap();
    assert_eq!(stream.len(), response.len() + 1);
    stream.extend_from_slice(&write_request(b"{}".to_vec()).unwrap());
    assert_eq!(read_limited_line(&stream).unwrap(), response);
    let full = vec![b'x'; MAX_REQUEST_BYTES];
    assert_eq!(read_limited_line(&write_response(full.clone()).unwrap()).unwrap(), full);
    assert_eq!(read_limited_line(&write_request(full).unwrap()).unwrap().len(), MAX_REQUEST_BYTES);
}

#[test]
fn a_message_that_is_too_long_is_not_sent() {
    let long = vec![b'x'; MAX_REQUEST_BYTES + 1];
    assert_eq!(write_request(long.clone()).unwrap_err(), REQUEST_TOO_LONG);
    assert_eq!(write_response(long.clone()).unwrap_err(), RESPONSE_TOO_LONG);
    assert_eq!(read_limited_line(&long).unwrap_err(), REQUEST_TOO_LONG);
}

fn params(text: &str) -> Json {
    read_message(text).unwrap()
}

#[test]
fn requests_go_where_their_method_says() {
    assert!(matches!(route_request("GET_STATUS", &Json::Null), Ok(Route::GetStatus)));
    assert!(matches!(route_request("GET_SNAPSHOT", &Json::Null), Ok(Route::GetSnapshot)));
    assert!(matches!(route_request("REFRESH_NOW", &Json::Null), Ok(Route::RefreshNow)));
    match route_request("REBUILD_ACCOUNT", &params(r#"{"accountKey": "account:a"}"#)) {
        Ok(Route::RebuildAccount { account_key }) => assert_eq!(account_key, "account:a"),
        other => panic!("{:?}", other),
    }
    assert_eq!(
        route_request("REBUILD_ACCOUNT", &params("{}")).unwrap_err(),
        "REBUILD_ACCOUNT requires accountKey"
    );
    assert!(route_request("DROP_TABLES", &Json::Null).is_err());
}

#[test]
fn a_response_carries_its_outcome() {
    let fine = respond("1".to_string(), Ok(Json::Bool(true)));
    assert!(fine.ok && fine.error.is_none());
    assert!(matches!(outcome_of(fine), Ok(Json::Bool(true))));
    let failed = respond("2".to_string(), Err("no".to_string()));
    assert!(!failed.ok && failed.result.is_none());
    assert_eq!(outcome_of(failed).unwrap_err(), "no");
    let unreadable = respond_unreadable("bad".to_string());
    assert!(!unreadable.ok);
    assert_eq!(request_id(17), "ui-17");
}

#[test]
fn only_a_private_socket_of_the_user_is_an_endpoint() {
    assert!(validate_endpoint(true, true, 0o140600).is_ok());
    assert!(validate_endpoint(true, true, 0o140644).is_err());
    assert!(validate_endpoint(true, false, 0o140600).is_err());
    assert!(validate_endpoint(false, true, 0o100600).is_err());
}

fn registered(heartbeat_at: i64) -> RegisteredCollector {
    RegisteredCollector {
        instance_id: "instance:1".to_string(),
        pid: 1,
        started_at: 5,
        heartbeat_at,
        version: "9".to_string(),
        status: "running".to_string(),
    }
}

#[test]
fn a_collector_without_a_heartbeat_is_told() {
    let absent = status_from_connection(None, "/tmp/s", true, 0);
    assert!(absent.pid.is_none());
    let alive = status_from_connection(Some(registered(100)), "/tmp/s", true, 101_000);
    assert_eq!(alive.heartbeat_age_ms, Some(1000));
    assert_eq!(alive.status, "running");
    let stale = status_from_connection(Some(registered(100)), "/tmp/s", true, 200_000);
    assert_ne!(stale.status, "running");
}
