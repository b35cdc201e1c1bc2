use sip::{HttpMethod, HttpRequest};

#[test]
fn test_http_request_new() {
    let request = HttpRequest::new(HttpMethod::Get, "localhost", "/example");
    assert_eq!(request.method, HttpMethod::Get);
    assert_eq!(request.path, "/example");
    assert!(request.args.is_empty());
    assert!(request.headers.is_empty());
    assert_eq!(request.text(), None);
}

#[test]
fn test_http_request_arg() {
    let mut request = HttpRequest::new(HttpMethod::Post, "localhost", "/submit");
    request.args.insert("key".to_string(), "value".to_string());
    assert_eq!(request.args.get("key"), Some(&"value".to_string()));
}

#[test]
fn test_http_request_header() {
    let mut request = HttpRequest::new(HttpMethod::Get, "localhost", "/data");
    request.headers.insert("Content-Type", "application/json");
    assert_eq!(
        request.headers.get("Content-Type"),
        Some(&"application/json".to_string())
    );
}

#[test]
fn test_http_request_to_string() {
    let mut request = HttpRequest::new(HttpMethod::Post, "localhost", "/resource");
    request.headers.insert("Content-Type", "application/json");

    let request_string = request.to_string();
    assert!(request_string.contains("POST /resource HTTP/1.1"));
    assert!(request_string.contains("Content-Type: application/json"));
}

#[test]
fn serializes_exact_bytes_without_args_or_body() {
    let mut request = HttpRequest::new(HttpMethod::Get, "example.org", "/index");
    request.headers.insert("Host", "example.org");
    request.headers.insert("Accept", "*/*");
    assert_eq!(
        request.to_bytes(),
        b"GET /index HTTP/1.1\r\nHost: example.org\r\nAccept: */*\r\n\r\n\r\n".to_vec()
    );
}

#[test]
fn serializes_query_args_in_order_and_body() {
    let mut request = HttpRequest::new(HttpMethod::Post, "example.org", "/submit");
    request.args.insert("a".to_string(), "1".to_string());
    request.args.insert("b".to_string(), "x y".to_string());
    request.body = b"hello".to_vec();
    assert_eq!(
        request.to_bytes(),
        b"POST /submit?a=1&b=x y HTTP/1.1\r\n\r\nhello\r\n".to_vec()
    );
}

#[test]
fn empty_path_serializes_as_slash() {
    let request = HttpRequest::new(HttpMethod::Delete, "example.org", "");
    assert_eq!(request.to_string(), "DELETE / HTTP/1.1\r\n\r\n\r\n");
}

#[test]
fn header_insert_keeps_place_and_takes_last_value() {
    let mut request = HttpRequest::new(HttpMethod::Get, "h", "/");
    request.headers.insert("a", "1");
    request.headers.insert("b", "2");
    request.headers.insert("a", "3");
    assert_eq!(request.headers.len(), 2);
    assert_eq!(request.to_string(), "GET / HTTP/1.1\r\na: 3\r\nb: 2\r\n\r\n\r\n");
}

#[test]
fn text_of_body() {
    let mut request = HttpRequest::new(HttpMethod::Put, "h", "/");
    request.body = "caf\u{e9}".as_bytes().to_vec();
    assert_eq!(request.text(), Some("caf\u{e9}".to_string()));
    request.body = vec![0xff, 0xfe];
    assert_eq!(request.text(), None);
}

#[test]
fn clone_and_default() {
    let mut request = HttpRequest::new(HttpMethod::Patch, "h", "/p");
    request.headers.insert("k", "v");
    request.body = b"b".to_vec();
    let copy = request.clone();
    assert_eq!(copy.method, HttpMethod::Patch);
    assert_eq!(copy.path, "/p");
    assert_eq!(copy.headers.get("k"), Some(&"v".to_string()));
    assert_eq!(copy.body, b"b".to_vec());
    let blank = HttpRequest::default();
    assert_eq!(blank.method, HttpMethod::Other(String::new()));
    assert_eq!(blank.path, "");
}

#[test]
fn method_names() {
    assert_eq!(HttpMethod::from_str("get"), HttpMethod::Get);
    assert_eq!(HttpMethod::from_str("OPTIONS"), HttpMethod::Options);
    assert_eq!(HttpMethod::from_str("custom"), HttpMethod::Other("CUSTOM".to_string()));
    assert_eq!(HttpMethod::Connect.to_str(), "CONNECT");
    assert_eq!(HttpMethod::Other("BREW".to_string()).to_str(), "BREW");
}

#[test]
fn parse_request_text() {
    let raw = "post http://example.org/api/x\nContent-Type :  application/json \n\n{\"a\":1}\nmore";
    let req = HttpRequest::parse(raw.to_string()).unwrap();
    assert_eq!(req.method, HttpMethod::Post);
    assert!(!req.ssl);
    assert_eq!(req.host, "example.org");
    assert_eq!(req.path, "/api/x");
    assert_eq!(req.headers.get("content-type"), Some(&"application/json".to_string()));
    assert_eq!(req.headers.get("host"), Some(&"example.org".to_string()));
    assert_eq!(req.headers.get("content-length"), None);
    assert_eq!(req.body, b"{\"a\":1}more".to_vec());
}

#[test]
fn parse_request_text_without_body() {
    let req = HttpRequest::parse("GET https://h.org\n".to_string()).unwrap();
    assert!(req.ssl);
    assert_eq!(req.host, "h.org");
    assert_eq!(req.path, "/");
    assert_eq!(req.headers.get("host"), Some(&"h.org".to_string()));
    assert_eq!(req.headers.get("content-length"), Some(&"0".to_string()));
    assert!(req.body.is_empty());
}

#[test]
fn parse_request_text_needs_a_space() {
    assert_eq!(
        HttpRequest::parse("GET\nHost: x\n".to_string()).err(),
        Some(sip::HttpError::InvalidStatusLine)
    );
}

#[test]
fn command_line_words() {
    let words: Vec<String> = ["post", "https://example.org/api", "-O", "out.json", "Accept:text/plain", "body", "text"]
        .iter()
        .map(|w| w.to_string())
        .collect();
    let args = sip::RequestArgs::parse(&words);
    assert_eq!(args.method, "post");
    assert_eq!(args.url, "https://example.org/api");
    assert_eq!(args.args.get("O"), Some(&"out.json".to_string()));
    assert_eq!(args.headers.get("Accept"), Some(&"text/plain".to_string()));
    assert_eq!(args.body, "bodytext");
    let req = args.to_request().unwrap();
    assert_eq!(req.method, HttpMethod::Post);
    assert!(req.ssl);
    assert_eq!(req.host, "example.org");
    assert_eq!(req.path, "/api");
    assert_eq!(req.body, b"bodytext".to_vec());
    assert_eq!(req.headers.get("Accept"), Some(&"text/plain".to_string()));
}

#[test]
fn request_file_blocks_and_variables() {
    let content = "@host = example.org\n# comment\nGET http://{host}/a\nAccept: */*\n\n###\nbad\n###\nPOST http://{host}/b\n###\ntrailing";
    let requests = sip::http_file::parse_http_file(content);
    assert_eq!(requests.len(), 2);
    assert_eq!(requests[0].0, "");
    assert_eq!(requests[0].1.method, HttpMethod::Get);
    assert_eq!(requests[0].1.host, "example.org");
    assert_eq!(requests[0].1.path, "/a");
    assert_eq!(requests[0].1.headers.get("accept"), Some(&"*/*".to_string()));
    assert_eq!(requests[1].1.method, HttpMethod::Post);
    assert_eq!(requests[1].1.path, "/b");
}

#[test]
fn request_text_defaults() {
    let mut h = sip::HttpHeaders::new();
    h.insert("accept", "*/*");
    sip::request_text::add_defaults(&mut h, "example.org", true);
    assert_eq!(h.get("host"), Some(&"example.org".to_string()));
    assert_eq!(h.get("content-length"), Some(&"0".to_string()));
    let mut g = sip::HttpHeaders::new();
    g.insert("host", "other");
    sip::request_text::add_defaults(&mut g, "example.org", false);
    assert_eq!(g.get("host"), Some(&"other".to_string()));
    assert_eq!(g.get("content-length"), None);
}

#[test]
fn default_headers() {
    let mut request = HttpRequest::new(HttpMethod::Post, "h", "/");
    request.body = vec![b'x'; 1234];
    request.add_default_headers("0.1.0");
    assert_eq!(request.headers.get("User-Agent"), Some(&"Sip/0.1.0".to_string()));
    assert_eq!(request.headers.get("Content-Length"), Some(&"1234".to_string()));
    let mut empty = HttpRequest::new(HttpMethod::Get, "h", "/");
    empty.add_default_headers("2");
    assert_eq!(empty.headers.get("Content-Length"), None);
    assert_eq!(sip::request::decimal_text(0), "0");
    assert_eq!(sip::request::decimal_text(9070), "9070");
}

#[test]
fn parsed_methods_are_standard_variants() {
    let r = HttpRequest::parse("GET http://example.org/api/x\nAccept: */*\n\n".to_string()).unwrap();
    assert_eq!(r.method, HttpMethod::Get);
    assert_eq!(r.headers.get("accept"), Some(&"*/*".to_string()));
    assert!(r.body.is_empty());
    let p = HttpRequest::parse("POST https://example.org/submit\n\n".to_string()).unwrap();
    assert_eq!(p.method, HttpMethod::Post);
    assert!(p.ssl);
    assert_eq!(p.path, "/submit");
    let files = sip::http_file::parse_http_file("@host=h\nGET http://{host}/a\n###");
    assert_eq!(files.len(), 1);
    assert_eq!(files[0].1.method, HttpMethod::Get);
    assert_eq!(files[0].1.host, "h");
}

#[test]
fn trim_drops_unicode_whitespace() {
    assert_eq!(sip::request_text::trim_text(" \u{3000}\tx y\u{a0}\n"), "x y");
    assert_eq!(sip::request_text::trim_text("  "), "");
    assert_eq!(sip::request_text::trim_text("z"), "z");
}
