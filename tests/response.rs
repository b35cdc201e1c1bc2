use sip::{HttpError, HttpResponseBuilder, HttpStatus, State};

#[test]
fn content_length_body_in_one_feed() {
    let mut b = HttpResponseBuilder::new();
    let r = b.append(b"HTTP/1.1 200 OK\r\nContent-Length: 5\r\n\r\nhello");
    assert_eq!(r, Ok(true));
    let resp = b.get().unwrap();
    assert_eq!(resp.status.as_num(), 200);
    assert_eq!(resp.content, b"hello".to_vec());
    assert_eq!(resp.headers.get("content-length"), Some(&"5".to_string()));
}

#[test]
fn content_length_body_byte_by_byte() {
    let msg = b"HTTP/1.1 200 OK\r\nContent-Length: 5\r\n\r\nhello";
    let mut b = HttpResponseBuilder::new();
    for (i, byte) in msg.iter().enumerate() {
        assert!(b.get().is_none());
        let r = b.append(&[*byte]);
        assert_eq!(r, Ok(i == msg.len() - 1));
    }
    let resp = b.get().unwrap();
    assert_eq!(resp.content, b"hello".to_vec());
    assert_eq!(resp.content.len(), 5);
}

#[test]
fn chunked_body_is_decoded() {
    let mut b = HttpResponseBuilder::new();
    assert_eq!(
        b.append(b"HTTP/1.1 200 OK\r\nTransfer-Encoding: chunked\r\n\r\n"),
        Ok(false)
    );
    assert_eq!(b.state(), State::Body);
    assert_eq!(b.append(b"4\r\nWiki\r\n5\r\npedia\r\n0\r\n\r\n"), Ok(true));
    assert_eq!(b.state(), State::Finish);
    assert_eq!(b.get().unwrap().content, b"Wikipedia".to_vec());
}

#[test]
fn chunked_body_split_everywhere() {
    let msg = b"HTTP/1.1 200 OK\r\ntransfer-encoding: Chunked\r\n\r\n0x4\r\nWiki\r\n5\r\npedia\r\n0\r\n\r\n";
    let mut b = HttpResponseBuilder::new();
    let mut done = false;
    for byte in msg.iter() {
        done = b.append(&[*byte]).unwrap();
    }
    assert!(done);
    assert_eq!(b.get().unwrap().content, b"Wikipedia".to_vec());
}

#[test]
fn teapot_status_line() {
    let mut b = HttpResponseBuilder::new();
    assert_eq!(b.append(b"HTTP/1.1 418 I'm a teapot\r\n"), Ok(false));
    assert_eq!(b.state(), State::Headers);
    assert_eq!(b.status().as_num(), 418);
    assert_eq!(b.status().as_str(), "I'm a teapot");
}

#[test]
fn unparsable_status_code() {
    let mut b = HttpResponseBuilder::new();
    assert_eq!(
        b.append(b"HTTP/1.1 ABC Teapot\r\n"),
        Err(HttpError::InvalidStatusLine)
    );
    assert_eq!(b.state(), State::Init);
}

#[test]
fn status_line_needs_three_words_and_a_known_range() {
    let mut b = HttpResponseBuilder::new();
    assert_eq!(b.append(b"HTTP/1.1 200\r\n"), Err(HttpError::InvalidStatusLine));
    let mut c = HttpResponseBuilder::new();
    assert_eq!(c.append(b"HTTP/1.1 700 Odd\r\n"), Err(HttpError::InvalidStatusLine));
    assert!(HttpStatus::from_u16(99).is_err());
    assert_eq!(HttpStatus::from_u16(599).unwrap().as_num(), 599);
}

#[test]
fn header_with_extra_whitespace() {
    let mut b = HttpResponseBuilder::new();
    assert_eq!(b.append(b"HTTP/1.1 200 OK\r\nContent-Length : 5 \r\n"), Ok(false));
    assert_eq!(b.headers().get("content-length"), Some(&"5".to_string()));
    assert_eq!(b.headers().entry(0).0, "content-length");
}

#[test]
fn header_without_colon() {
    let mut b = HttpResponseBuilder::new();
    assert_eq!(
        b.append(b"HTTP/1.1 200 OK\r\nBroken header\r\n"),
        Err(HttpError::InvalidHeader)
    );
}

#[test]
fn bad_chunk_size() {
    let mut b = HttpResponseBuilder::new();
    assert_eq!(
        b.append(b"HTTP/1.1 200 OK\r\nTransfer-Encoding: chunked\r\n\r\nzz\r\n"),
        Err(HttpError::InvalidChunkSize)
    );
    assert_eq!(b.state(), State::Init);
    assert_eq!(b.append(b"HTTP/1.1 200 OK\r\nTransfer-Encoding: chunked\r\n\r\n"), Ok(false));
    assert_eq!(b.append(b"-3\r\n"), Err(HttpError::InvalidChunkSize));
    assert_eq!(b.state(), State::Body);
}

#[test]
fn no_length_completes_at_end_of_headers() {
    let mut b = HttpResponseBuilder::new();
    assert_eq!(b.append(b"HTTP/1.1 204 No Content\r\nServer: x\r\n\r\n"), Ok(true));
    let resp = b.get().unwrap();
    assert_eq!(resp.status.as_num(), 204);
    assert!(resp.content.is_empty());
}

#[test]
fn complete_parser_takes_no_more() {
    let mut b = HttpResponseBuilder::new();
    assert_eq!(b.append(b"HTTP/1.1 200 OK\r\nContent-Length: 2\r\n\r\nok"), Ok(true));
    assert_eq!(b.append(b"trailing garbage"), Ok(true));
    assert_eq!(b.get().unwrap().content, b"ok".to_vec());
}

#[test]
fn extra_bytes_after_content_length_are_ignored() {
    let mut b = HttpResponseBuilder::new();
    assert_eq!(b.append(b"HTTP/1.1 200 OK\r\nContent-Length: 2\r\n\r\nokay"), Ok(true));
    assert_eq!(b.get().unwrap().content, b"ok".to_vec());
}

#[test]
fn partial_body_as_it_arrives() {
    let mut b = HttpResponseBuilder::new();
    assert_eq!(b.append(b"HTTP/1.1 200 OK\r\nContent-Length: 6\r\n\r\nab"), Ok(false));
    assert_eq!(b.body(), &b"ab".to_vec());
    assert_eq!(b.append(b"cd"), Ok(false));
    assert_eq!(b.body(), &b"abcd".to_vec());
    assert_eq!(b.append(b"efgh"), Ok(true));
    assert_eq!(b.body(), &b"abcdef".to_vec());
}

#[test]
fn partial_chunked_body_holds_complete_chunks() {
    let mut b = HttpResponseBuilder::new();
    assert_eq!(
        b.append(b"HTTP/1.1 200 OK\r\nTransfer-Encoding: chunked\r\n\r\n4\r\nWiki\r\n5\r\npe"),
        Ok(false)
    );
    assert_eq!(b.body(), &b"Wiki".to_vec());
    assert_eq!(b.append(b"dia\r\n0\r\n\r\n"), Ok(true));
    assert_eq!(b.body(), &b"Wikipedia".to_vec());
}

#[test]
fn reason_phrases() {
    assert_eq!(HttpStatus::from_u16(404).unwrap().as_str(), "Not Found");
    assert_eq!(HttpStatus::from_u16(299).unwrap().as_str(), "");
}
