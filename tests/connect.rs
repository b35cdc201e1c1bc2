use sip::connect::{
    choose_address, resolve_target, tls_after_resolution, Candidate, ReadDriver, ReadStep,
};
use sip::HttpError;

#[test]
fn localhost_with_port() {
    let e = resolve_target("localhost:8080", false);
    assert_eq!(e.authority, "127.0.0.1:8080");
    assert_eq!(e.server_name, "localhost");
    assert!(!e.tls);
}

#[test]
fn plain_host_defaults_to_port_80() {
    let e = resolve_target("example.org", false);
    assert_eq!(e.authority, "example.org:80");
    assert!(!e.tls);
    assert!(tls_after_resolution(e.tls, 443));
    assert!(!tls_after_resolution(e.tls, 80));
}

#[test]
fn https_scheme_and_path() {
    let e = resolve_target("https://example.org/a/b", false);
    assert_eq!(e.authority, "example.org:443");
    assert_eq!(e.server_name, "example.org");
    assert!(e.tls);
    let p = resolve_target("http://localhost/x", false);
    assert_eq!(p.authority, "127.0.0.1:80");
    assert!(!p.tls);
}

#[test]
fn first_usable_address() {
    let cands = vec![
        Candidate { port: 0, unspecified: false },
        Candidate { port: 80, unspecified: true },
        Candidate { port: 80, unspecified: false },
    ];
    assert_eq!(choose_address(&cands), Ok(2));
    assert_eq!(
        choose_address(&vec![Candidate { port: 0, unspecified: true }]),
        Err(HttpError::AddressResolution)
    );
    assert_eq!(choose_address(&Vec::new()), Err(HttpError::AddressResolution));
}

#[test]
fn ten_empty_reads_close_the_connection() {
    let mut d = ReadDriver::new(10);
    for _ in 0..9 {
        assert!(matches!(d.on_read(&[]), ReadStep::Continue));
    }
    assert!(matches!(
        d.on_read(&[]),
        ReadStep::Failed(HttpError::ConnectionClosed)
    ));
}

#[test]
fn data_resets_the_empty_read_count() {
    let mut d = ReadDriver::new(3);
    assert!(matches!(d.on_read(&[]), ReadStep::Continue));
    assert!(matches!(d.on_read(&[]), ReadStep::Continue));
    assert!(matches!(d.on_read(b"HTTP/1.1 200 OK\r\n"), ReadStep::Continue));
    assert!(matches!(d.on_read(&[]), ReadStep::Continue));
    assert!(matches!(d.on_read(&[]), ReadStep::Continue));
    match d.on_read(b"Content-Length: 1\r\n\r\nx") {
        ReadStep::Done(resp) => assert_eq!(resp.content, b"x".to_vec()),
        _ => panic!("expected a complete response"),
    }
}

#[test]
fn timeout_yields_what_is_complete() {
    let mut d = ReadDriver::new(10);
    assert!(matches!(d.on_read(b"HTTP/1.1 200 OK\r\nContent-Length: 4\r\n\r\nab"), ReadStep::Continue));
    assert!(d.on_timeout().is_none());
    assert!(matches!(d.on_read(b"cd"), ReadStep::Done(_)));
    assert_eq!(d.on_timeout().unwrap().content, b"abcd".to_vec());
}

#[test]
fn malformed_data_fails_the_read_loop() {
    let mut d = ReadDriver::new(10);
    assert!(matches!(
        d.on_read(b"garbage\r\n"),
        ReadStep::Failed(HttpError::InvalidStatusLine)
    ));
}

#[test]
fn only_the_host_localhost_is_rewritten() {
    let e = resolve_target("localhost.example.org:8080", false);
    assert_eq!(e.authority, "localhost.example.org:8080");
    let f = resolve_target("localhost", false);
    assert_eq!(f.authority, "127.0.0.1:80");
}
