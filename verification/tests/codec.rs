use room_relay::errors::RelayError;
use room_relay::frames::{
    parse_host_frame, render_keep_alive, render_to_host, render_to_listener, HostFrame,
};

fn parse(s: &str) -> Option<HostFrame> {
    parse_host_frame(&s.as_bytes().to_vec())
}

fn expect_to_listener(s: &str) -> (Vec<u8>, Vec<u8>) {
    match parse(s) {
        Some(HostFrame::ToListener { to, msg }) => (to, msg),
        other => panic!("expected a ToListener frame, got {:?}", other),
    }
}

#[test]
fn keep_alive_parses() {
    assert!(matches!(parse("{\"type\":\"KeepAlive\"}"), Some(HostFrame::KeepAlive)));
}

#[test]
fn to_listener_parses() {
    let (to, msg) = expect_to_listener("{\"type\":\"ToListener\",\"to\":\"L1\",\"msg\":\"hello\"}");
    assert_eq!(to, b"L1".to_vec());
    assert_eq!(msg, b"hello".to_vec());
}

#[test]
fn whitespace_and_member_order_do_not_matter() {
    let (to, msg) =
        expect_to_listener(" {\n\t\"msg\" : \"m\" ,\r\n \"to\":\"x\" , \"type\" : \"ToListener\" } ");
    assert_eq!(to, b"x".to_vec());
    assert_eq!(msg, b"m".to_vec());
}

#[test]
fn unknown_members_are_ignored() {
    let (to, msg) = expect_to_listener(
        "{\"type\":\"ToListener\",\"extra\":\"e\",\"to\":\"a\",\"msg\":\"b\"}",
    );
    assert_eq!(to, b"a".to_vec());
    assert_eq!(msg, b"b".to_vec());
}

#[test]
fn escapes_decode() {
    let (to, msg) = expect_to_listener(
        "{\"type\":\"ToListener\",\"to\":\"a\\\"b\",\"msg\":\"x\\n\\t\\\\y\\u0041\\u000a\"}",
    );
    assert_eq!(to, b"a\"b".to_vec());
    assert_eq!(msg, b"x\n\t\\yA\n".to_vec());
}

#[test]
fn malformed_frames_are_refused() {
    for bad in [
        "not json",
        "",
        "{",
        "{}",
        "{\"type\":\"KeepAlive\"",
        "{\"type\":\"Other\"}",
        "{\"type\":\"ToListener\",\"to\":\"a\"}",
        "{\"type\":\"ToListener\",\"msg\":\"m\"}",
        "{\"to\":\"a\",\"msg\":\"m\"}",
        "{\"type\":\"KeepAlive\"} trailing",
        "{\"type\":\"KeepAlive\",\"type\":\"KeepAlive\"}",
        "{\"type\":\"ToListener\",\"to\":\"a\",\"msg\":\"\\u00e9\"}",
        "{\"type\":\"ToListener\",\"to\":\"a\",\"msg\":\"bad\\q\"}",
        "{\"type\":\"ToListener\",\"to\":\"a\",\"msg\":123}",
        "{\"type\":\"KeepAlive\",}",
    ] {
        assert!(parse(bad).is_none(), "should have refused: {bad}");
    }
}

#[test]
fn raw_control_bytes_are_refused() {
    let mut raw = b"{\"type\":\"ToListener\",\"to\":\"a\",\"msg\":\"x".to_vec();
    raw.push(7);
    raw.extend_from_slice(b"\"}");
    assert!(parse_host_frame(&raw).is_none());
}

#[test]
fn render_keep_alive_exact_bytes() {
    assert_eq!(render_keep_alive(), b"{\"type\":\"KeepAlive\"}".to_vec());
}

#[test]
fn render_to_host_exact_bytes() {
    let out = render_to_host(&b"L1".to_vec(), &b"ping".to_vec());
    assert_eq!(out, b"{\"from\":\"L1\",\"msg\":\"ping\"}".to_vec());
}

#[test]
fn render_escapes_quotes_backslashes_and_controls() {
    let out = render_to_host(&b"a\"b".to_vec(), &b"x\\y\nz".to_vec());
    assert_eq!(out, b"{\"from\":\"a\\\"b\",\"msg\":\"x\\\\y\\u000az\"}".to_vec());
}

#[test]
fn rendered_to_listener_frames_parse_back() {
    for (to, msg) in [
        (b"L1".to_vec(), b"hello".to_vec()),
        (b"a\"b\\c".to_vec(), b"\n\t\x01".to_vec()),
        (Vec::new(), Vec::new()),
    ] {
        let frame = render_to_listener(&to, &msg);
        match parse_host_frame(&frame) {
            Some(HostFrame::ToListener { to: t, msg: m }) => {
                assert_eq!(t, to);
                assert_eq!(m, msg);
            },
            other => panic!("round trip failed for {:?}: {:?}", frame, other),
        }
    }
}

#[test]
fn rendered_keep_alive_parses_back() {
    assert!(matches!(
        parse_host_frame(&render_keep_alive()),
        Some(HostFrame::KeepAlive)
    ));
}

#[test]
fn rendered_to_host_frames_agree_with_standard_json() {
    let out = render_to_host(&b"L1".to_vec(), &b"line1\nline2 \"quoted\"".to_vec());
    let value: serde_json::Value =
        serde_json::from_slice(&out).expect("rendered frame is valid JSON");
    assert_eq!(value["from"], serde_json::Value::String("L1".to_string()));
    assert_eq!(
        value["msg"],
        serde_json::Value::String("line1\nline2 \"quoted\"".to_string())
    );
}

#[test]
fn standard_json_renderings_parse() {
    // a frame serialised by the ubiquitous serializer is accepted
    let mut map = serde_json::Map::new();
    map.insert(
        "type".to_string(),
        serde_json::Value::String("ToListener".to_string()),
    );
    map.insert("to".to_string(), serde_json::Value::String("L1".to_string()));
    map.insert(
        "msg".to_string(),
        serde_json::Value::String("tab\there".to_string()),
    );
    let text = serde_json::to_string(&serde_json::Value::Object(map)).unwrap();
    let (to, msg) = match parse_host_frame(&text.into_bytes()) {
        Some(HostFrame::ToListener { to, msg }) => (to, msg),
        other => panic!("expected ToListener, got {:?}", other),
    };
    assert_eq!(to, b"L1".to_vec());
    assert_eq!(msg, b"tab\there".to_vec());
}

#[test]
fn error_status_codes_and_messages() {
    assert_eq!(RelayError::NotOwner.status_code(), 403);
    assert_eq!(RelayError::AlreadyHosted.status_code(), 409);
    assert_eq!(RelayError::RoomNotFound.status_code(), 404);
    assert_eq!(RelayError::StorageUnavailable.status_code(), 503);
    assert_eq!(
        RelayError::NotOwner.message(),
        "You are not the owner of the selected room"
    );
    assert_eq!(
        RelayError::AlreadyHosted.message(),
        "A host is already connected to the selected room"
    );
}
