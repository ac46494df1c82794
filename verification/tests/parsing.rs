use http_server::http_req::{
    parse_request, Header, HeaderPos, ParseStatus, ParsedPositions, MAX_HEADERS,
};

fn parse(buf: &[u8]) -> (ParseStatus, [HeaderPos; MAX_HEADERS]) {
    let mut positions = [HeaderPos::default(); MAX_HEADERS];
    let status = parse_request(buf, &mut positions);
    (status, positions)
}

fn complete(buf: &[u8]) -> (ParsedPositions, [HeaderPos; MAX_HEADERS]) {
    match parse(buf) {
        (ParseStatus::Complete(p), positions) => (p, positions),
        _ => panic!("not complete"),
    }
}

fn is_incomplete(buf: &[u8]) -> bool {
    matches!(parse(buf).0, ParseStatus::Incomplete)
}

fn is_error(buf: &[u8]) -> bool {
    matches!(parse(buf).0, ParseStatus::Error)
}

#[test]
fn a_get_request_is_resolved() {
    let buf = b"GET /index.html HTTP/1.1\r\nHost: example.org\r\nAccept:\t */*\r\n\r\nrest";
    let (p, positions) = complete(buf);
    assert_eq!(p.consumed, buf.len() - 4);
    assert_eq!(p.body_len, 0);
    let mut headers = [Header::default(); MAX_HEADERS];
    let request = p.resolve(buf, &positions, &mut headers);
    assert_eq!(request.method, b"GET");
    assert_eq!(request.path, b"/index.html");
    assert_eq!(request.minor_version, 1);
    assert_eq!(request.headers.len(), 2);
    assert_eq!(request.headers[0].name, b"Host");
    assert_eq!(request.headers[0].value, b"example.org");
    assert_eq!(request.headers[1].name, b"Accept");
    assert_eq!(request.headers[1].value, b"*/*");
    assert_eq!(request.body, b"");
}

#[test]
fn offsets_are_exact() {
    let (p, positions) = complete(b"PUT /a HTTP/1.0\r\nX: yz\r\n\r\n");
    assert_eq!(p.method, (0, 3));
    assert_eq!(p.path, (4, 6));
    assert_eq!(p.minor_version, 0);
    assert_eq!(p.num_headers, 1);
    assert_eq!(positions[0].name, (17, 18));
    assert_eq!(positions[0].value, (20, 22));
    assert_eq!(p.consumed, 26);
}

#[test]
fn a_body_of_the_declared_length_is_cut_out() {
    let buf = b"POST /f HTTP/1.1\r\nCONTENT-length: 5\r\n\r\nhello, world";
    let (p, positions) = complete(buf);
    assert_eq!(p.body_len, 5);
    let mut headers = [Header::default(); MAX_HEADERS];
    assert_eq!(p.resolve(buf, &positions, &mut headers).body, b"hello");
}

#[test]
fn a_body_that_has_not_arrived_whole_is_what_there_is() {
    let buf = b"POST /f HTTP/1.1\r\nContent-Length: 50\r\n\r\nhel";
    let (p, positions) = complete(buf);
    assert_eq!(p.body_len, 50);
    let mut headers = [Header::default(); MAX_HEADERS];
    assert_eq!(p.resolve(buf, &positions, &mut headers).body, b"hel");
}

#[test]
fn a_get_request_has_no_body() {
    let (p, _) = complete(b"GET / HTTP/1.1\r\nContent-Length: 5\r\n\r\nhello");
    assert_eq!(p.body_len, 0);
}

#[test]
fn the_last_content_length_counts() {
    let (p, _) =
        complete(b"POST / HTTP/1.1\r\nContent-Length: 5\r\nContent-Length: 7\r\n\r\n");
    assert_eq!(p.body_len, 7);
    let (p, _) =
        complete(b"POST / HTTP/1.1\r\nContent-Length: 5\r\nContent-Length: x\r\n\r\n");
    assert_eq!(p.body_len, 0);
}

#[test]
fn content_length_is_a_plain_number() {
    for (value, expected) in [
        ("12", 12),
        ("+12", 12),
        ("0012", 12),
        ("-12", 0),
        ("12 ", 0),
        ("+", 0),
        ("", 0),
        ("1x", 0),
        ("99999999999999999999999999", 0),
    ] {
        let text = format!("POST / HTTP/1.1\r\nContent-Length: {value}\r\n\r\n");
        let (p, _) = complete(text.as_bytes());
        assert_eq!(p.body_len, expected, "{value}");
    }
    let (p, _) = complete(b"POST / HTTP/1.1\r\nContent-Length: \xff\r\n\r\n");
    assert_eq!(p.body_len, 0);
    let text = format!("POST / HTTP/1.1\r\nContent-Length: {}\r\n\r\n", usize::MAX);
    let (p, _) = complete(text.as_bytes());
    assert_eq!(p.body_len, usize::MAX);
}

#[test]
fn every_proper_prefix_of_a_head_is_incomplete() {
    let buf = b"POST /f HTTP/1.1\r\nA: b\r\nC:d\r\n\r\n";
    for n in 0..buf.len() {
        assert!(is_incomplete(&buf[..n]), "{n}");
    }
    assert_eq!(complete(buf).0.consumed, buf.len());
}

#[test]
fn more_bytes_do_not_change_a_verdict() {
    let head = b"GET / HTTP/1.1\r\nA: b\r\n\r\n".to_vec();
    let (p, _) = complete(&head);
    let mut longer = head.clone();
    longer.extend_from_slice(b"GET / HTTP/1.1\r\n");
    let (q, _) = complete(&longer);
    assert_eq!(p.consumed, q.consumed);
    assert_eq!(p.num_headers, q.num_headers);
    assert!(is_error(b"GET / HTTP/2.0\r\n"));
    assert!(is_error(b"GET / HTTP/2.0\r\n\r\nmore"));
}

#[test]
fn what_is_no_request_is_refused() {
    assert!(is_error(b"GET / HTTX/1.1\r\n\r\n"));
    assert!(is_error(b"GET / HTTP/1.2\r\n\r\n"));
    assert!(is_error(b"GET / HTTP/1.1\n\n\r\n"));
    assert!(is_error(b"GET / HTTP/1.1\r\nA: b\rc\r\n\r\n"));
}

#[test]
fn a_missing_colon_is_looked_for_in_later_lines() {
    let buf = b"GET / HTTP/1.1\r\nabc\r\nX: y\r\n\r\n";
    let (p, positions) = complete(buf);
    let mut headers = [Header::default(); MAX_HEADERS];
    let request = p.resolve(buf, &positions, &mut headers);
    assert_eq!(request.headers.len(), 1);
    assert_eq!(request.headers[0].name, b"abc\r\nX");
}

#[test]
fn there_is_room_for_so_many_headers_and_no_more() {
    let mut text = String::from("GET / HTTP/1.1\r\n");
    for _ in 0..MAX_HEADERS {
        text.push_str("A: b\r\n");
    }
    let (p, _) = complete(format!("{text}\r\n").as_bytes());
    assert_eq!(p.num_headers, MAX_HEADERS);
    assert!(is_error(format!("{text}A: b\r\n\r\n").as_bytes()));
}

#[test]
fn positions_found_so_far_are_noted() {
    let (status, positions) = parse(b"GET / HTTP/1.1\r\nA: b\r\nC");
    assert!(matches!(status, ParseStatus::Incomplete));
    assert_eq!(positions[0].name, (16, 17));
    assert_eq!(positions[0].value, (19, 20));
    assert_eq!(positions[1].name, (0, 0));
}

#[test]
fn a_request_is_shown_as_text() {
    let buf = b"POST /f HTTP/1.1\r\nContent-Length: 30\r\nA: b\r\n\r\n012345678901234567890123456789";
    let (p, positions) = complete(buf);
    let mut headers = [Header::default(); MAX_HEADERS];
    let request = p.resolve(buf, &positions, &mut headers);
    assert_eq!(
        request.to_string(),
        "POST /f HTTP/1.1\nContent-Length: 30\nA: b\n01234567890123456789\n"
    );
}

#[test]
fn invalid_bytes_are_shown_as_replacement_characters() {
    let buf = b"G\xffT /\xc3\xa9 HTTP/1.0\r\n\r\n";
    let (p, positions) = complete(buf);
    let mut headers = [Header::default(); MAX_HEADERS];
    let request = p.resolve(buf, &positions, &mut headers);
    assert_eq!(request.to_string(), "G\u{fffd}T /\u{e9} HTTP/1.0\n\n");
}
