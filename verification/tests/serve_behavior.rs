use ascii_cam::app::ServeArgs;
use ascii_cam::color::ColorMode;
use ascii_cam::render::RenderedFrame;
use ascii_cam::serve::{
    authorized, broadcast_outcome, color_mode_for_bits, consumer_hints, consumer_hosts,
    effective_bind, frame_payload, negotiate_color_mode, outcome_for, parse_bits,
    stream_query_suffix, viewer_html, BroadcastOutcome, RecvErrorKind,
};
use tokio::sync::broadcast;

#[test]
fn frame_payload_prefixes_cursor_home_and_includes_terminal_text() {
    let frame = RenderedFrame::new(2, 1, vec!["ab".to_string()], None).unwrap();
    let payload = frame_payload(&frame, false);
    assert!(payload.starts_with("\x1b[H"));
    assert!(payload.contains("ab"));
}

#[test]
fn frame_payload_can_clear_screen_before_cursor_home() {
    let frame = RenderedFrame::new(2, 1, vec!["ab".to_string()], None).unwrap();
    let payload = frame_payload(&frame, true);
    assert!(payload.starts_with("\x1b[2J\x1b[H"));
}

#[test]
fn negotiate_color_mode_reads_accept_bits_parameter() {
    assert_eq!(
        negotiate_color_mode(Some("text/plain; bits=8"), None),
        ColorMode::Ansi256
    );
    assert_eq!(
        negotiate_color_mode(Some("text/plain; bits=16"), None),
        ColorMode::Ansi16
    );
    assert_eq!(negotiate_color_mode(None, Some("8")), ColorMode::Ansi256);
}

#[test]
fn authorized_allows_missing_token_when_not_required() {
    assert!(authorized(None, None));
    assert!(authorized(None, Some("secret")));
}

#[test]
fn authorized_requires_matching_token_when_configured() {
    assert!(authorized(Some("secret"), Some("secret")));
    assert!(!authorized(Some("secret"), Some("wrong")));
    assert!(!authorized(Some("secret"), None));
}

#[test]
fn effective_bind_uses_loopback_when_local_flag_is_set() {
    let args = ServeArgs {
        port: 8080,
        bind: "0.0.0.0".to_string(),
        local: true,
        token: None,
        cols: 120,
        rows: 40,
        clear_each_frame: false,
    };
    assert_eq!(effective_bind(&args), "127.0.0.1");
}

#[test]
fn stream_query_suffix_includes_token_when_configured() {
    assert_eq!(stream_query_suffix(Some("secret")), "?token=secret");
    assert_eq!(stream_query_suffix(None), "");
}

#[test]
fn broadcast_outcome_disconnects_on_lagged_and_ends_on_closed() {
    assert_eq!(
        broadcast_outcome(broadcast::error::RecvError::Lagged(1)),
        BroadcastOutcome::Disconnect
    );
    assert_eq!(
        broadcast_outcome(broadcast::error::RecvError::Closed),
        BroadcastOutcome::End
    );
}

#[test]
fn frame_payload_uses_cursor_home_and_terminal_text_for_curl_clients() {
    let frame = RenderedFrame::new(3, 2, vec!["abc".to_string(), "def".to_string()], None).unwrap();
    let payload = frame_payload(&frame, false);

    assert!(payload.starts_with("\x1b[H"));
    assert!(payload.contains("abc"));
    assert!(payload.contains("def"));
    assert!(!payload.starts_with("\x1b[2J"));
}

#[test]
fn frame_payload_can_emit_full_clear_before_each_frame_when_requested() {
    let frame = RenderedFrame::new(2, 1, vec!["ok".to_string()], None).unwrap();
    let payload = frame_payload(&frame, true);

    assert!(payload.starts_with("\x1b[2J\x1b[H"));
}

#[test]
fn negotiate_color_mode_honors_accept_header_and_bits_query() {
    assert_eq!(
        negotiate_color_mode(Some("text/plain; bits=8"), None),
        ColorMode::Ansi256
    );
    assert_eq!(
        negotiate_color_mode(Some("text/plain; bits=16"), None),
        ColorMode::Ansi16
    );
    assert_eq!(negotiate_color_mode(None, Some("0")), ColorMode::Off);
    assert_eq!(
        negotiate_color_mode(Some("text/plain"), Some("24")),
        ColorMode::TrueColor
    );
}

#[test]
fn authorized_enforces_token_when_configured_and_allows_open_access_otherwise() {
    assert!(authorized(None, None));
    assert!(authorized(Some("secret"), Some("secret")));
    assert!(!authorized(Some("secret"), Some("wrong")));
    assert!(!authorized(Some("secret"), None));
}

#[test]
fn effective_bind_defaults_to_all_interfaces_unless_local_flag_is_set() {
    let lan = ServeArgs {
        port: 8080,
        bind: "0.0.0.0".to_string(),
        local: false,
        token: None,
        cols: 120,
        rows: 40,
        clear_each_frame: false,
    };
    let local = ServeArgs {
        local: true,
        ..lan.clone()
    };
    assert_eq!(effective_bind(&lan), "0.0.0.0");
    assert_eq!(effective_bind(&local), "127.0.0.1");
}

#[test]
fn stream_query_suffix_formats_token_for_urls() {
    assert_eq!(stream_query_suffix(Some("mytoken")), "?token=mytoken");
    assert_eq!(stream_query_suffix(None), "");
}

#[test]
fn broadcast_outcome_disconnects_lagged_clients_instead_of_buffering_forever() {
    assert_eq!(
        broadcast_outcome(broadcast::error::RecvError::Lagged(3)),
        BroadcastOutcome::Disconnect
    );
    assert_eq!(
        broadcast_outcome(broadcast::error::RecvError::Closed),
        BroadcastOutcome::End
    );
}

#[test]
fn bits_values_and_accept_parameters() {
    assert_eq!(parse_bits(" 16 "), Some(16));
    assert_eq!(parse_bits("256"), None);
    assert_eq!(parse_bits("-1"), None);
    assert_eq!(color_mode_for_bits(0), ColorMode::Off);
    assert_eq!(color_mode_for_bits(8), ColorMode::Ansi256);
    assert_eq!(color_mode_for_bits(16), ColorMode::Ansi16);
    assert_eq!(color_mode_for_bits(24), ColorMode::TrueColor);
    // A bad bits query falls back to the Accept header.
    assert_eq!(negotiate_color_mode(Some("text/plain;bits=0"), Some("x")), ColorMode::Off);
    // The first media range with a valid bits parameter wins.
    assert_eq!(
        negotiate_color_mode(Some("text/html; bits=zz, text/plain ; q=1; bits= 8 "), None),
        ColorMode::Ansi256
    );
    // Only the first bits parameter of a media range counts.
    assert_eq!(
        negotiate_color_mode(Some("text/plain; bits=x; bits=8"), None),
        ColorMode::TrueColor
    );
    assert_eq!(negotiate_color_mode(None, None), ColorMode::TrueColor);
}

#[test]
fn receiver_error_kinds_map_to_outcomes() {
    assert_eq!(outcome_for(RecvErrorKind::Lagged(0)), BroadcastOutcome::Disconnect);
    assert_eq!(outcome_for(RecvErrorKind::Closed), BroadcastOutcome::End);
}

#[test]
fn hosts_and_hints_for_viewers() {
    assert_eq!(
        consumer_hosts("0.0.0.0", 8080, Some("192.168.1.5".to_string())),
        vec!["127.0.0.1:8080", "192.168.1.5:8080"]
    );
    assert_eq!(consumer_hosts("::", 80, None), vec!["127.0.0.1:80"]);
    assert_eq!(consumer_hosts("10.0.0.2", 9000, Some("x".to_string())), vec!["10.0.0.2:9000"]);
    let hints = consumer_hints("0.0.0.0", 8080, None, None);
    assert_eq!(
        hints,
        vec![
            "",
            "ascii-cam serve is running (Ctrl+C to stop)",
            "  warning: no --token set; anyone on your network can watch",
            "",
            "  Browser:  http://127.0.0.1:8080",
            "  Terminal: curl -N \"http://127.0.0.1:8080/stream\"",
            "",
        ]
    );
    let guarded = consumer_hints("127.0.0.1", 1, Some("t"), None);
    assert_eq!(guarded.len(), 6);
    assert_eq!(guarded[3], "  Browser:  http://127.0.0.1:1?token=t");
}

#[test]
fn viewer_page_reads_the_stream_with_the_token() {
    let html = viewer_html("?token=abc");
    assert!(html.starts_with("<!doctype html>"));
    assert!(html.contains("const url = '/stream?token=abc';"));
    assert!(html.contains("const HOME = '\\x1b[H';"));
    assert!(html.contains("function xterm256(n) {"));
    assert!(html.ends_with("</script>\n"));
}
