use funkot_player::http::{classify_request, configured_port_value, CurrentTrackSnapshot, RequestKind};

#[test]
fn snapshot_mapping_handles_pause_stall_audition_and_no_track() {
    let metadata = Some(("Title".to_string(), "Artist".to_string()));
    assert!(CurrentTrackSnapshot::from_state(metadata.clone(), true, false, false).playing);
    let paused = CurrentTrackSnapshot::from_state(metadata.clone(), true, true, false);
    assert_eq!((paused.title.as_str(), paused.artist.as_str(), paused.playing), ("Title", "Artist", false));
    assert!(!CurrentTrackSnapshot::from_state(metadata.clone(), false, false, false).playing);
    assert_eq!(CurrentTrackSnapshot::from_state(metadata, true, false, true), CurrentTrackSnapshot::empty());
    assert_eq!(CurrentTrackSnapshot::from_state(None, true, false, false), CurrentTrackSnapshot::empty());
}

#[test]
fn port_configuration_is_opt_in_and_rejects_invalid_values() {
    assert_eq!(configured_port_value(None), None);
    assert_eq!(configured_port_value(Some("0")), None);
    assert_eq!(configured_port_value(Some("43123")), Some(43123));
    assert_eq!(configured_port_value(Some("-1")), None);
    assert_eq!(configured_port_value(Some("not-a-port")), None);
}

#[test]
fn port_configuration_follows_u16_parsing() {
    assert_eq!(configured_port_value(Some("+80")), Some(80));
    assert_eq!(configured_port_value(Some("65535")), Some(65535));
    assert_eq!(configured_port_value(Some("65536")), None);
    assert_eq!(configured_port_value(Some("")), None);
    assert_eq!(configured_port_value(Some("+")), None);
    assert_eq!(configured_port_value(Some(" 80")), None);
}

#[test]
fn request_filter_allows_only_local_host_get_without_origin() {
    assert_eq!(classify_request(b"GET /now-playing HTTP/1.1\r\nHost: localhost:43123\r\n\r\n", 43123), RequestKind::NowPlaying);
    assert_eq!(classify_request(b"GET /now-playing HTTP/1.1\r\nHost: 127.0.0.1:43123\r\n\r\n", 43123), RequestKind::NowPlaying);
    assert_eq!(classify_request(b"GET /now-playing HTTP/1.1\r\n\r\n", 43123), RequestKind::Forbidden);
    assert_eq!(classify_request(b"GET /now-playing HTTP/1.1\r\nHost: localhost:1\r\n\r\n", 43123), RequestKind::Forbidden);
    assert_eq!(classify_request(b"GET /now-playing HTTP/1.1\r\nHost: evil.test\r\nHost: localhost:43123\r\n\r\n", 43123), RequestKind::Forbidden);
    assert_eq!(classify_request(b"GET /now-playing HTTP/1.1\r\nHost: localhost:43123\r\nOrigin: http://evil.test\r\n\r\n", 43123), RequestKind::Forbidden);
    assert_eq!(classify_request(b"POST /now-playing HTTP/1.1\r\nHost: localhost:43123\r\n\r\n", 43123), RequestKind::MethodNotAllowed);
    assert_eq!(classify_request(b"GET /other HTTP/1.1\r\nHost: localhost:43123\r\n\r\n", 43123), RequestKind::NotFound);
}

#[test]
fn malformed_requests_are_rejected() {
    assert_eq!(classify_request(b"\xff\xfe", 80), RequestKind::Malformed);
    assert_eq!(classify_request(b"GET /now-playing HTTP/1.0\r\nHost: localhost:80\r\n\r\n", 80), RequestKind::Malformed);
    assert_eq!(classify_request(b"GET  /now-playing HTTP/1.1\r\n\r\n", 80), RequestKind::Malformed);
    assert_eq!(classify_request(b"GET /now-playing HTTP/1.1\r\nno colon here\r\n\r\n", 80), RequestKind::Malformed);
    assert_eq!(classify_request(b"GET /now-playing HTTP/1.1\r\nhOsT:   localhost:80  \r\n\r\n", 80), RequestKind::NowPlaying);
}
