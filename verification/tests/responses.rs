use http_server::bytes::{decimal_bytes, parse_number};
use http_server::http_req::{parse_request, Header, HeaderPos, ParseStatus, MAX_HEADERS};
use http_server::http_req_text::format_request;
use http_server::http_res::{header_line, status_line, ResponseWriter};
use http_server::server::{self, ReadOutcome};
use http_server::sink::{ByteSink, ResponseBuf, WriteError, RESPONSE_SIZE};
use http_server::threaded;

const KEPT: &[u8] = b"HTTP/1.1 200 OK\r\nContent-Type: text/html\r\nContent-Length: 45\r\nConnection: keep-alive\r\n\r\n<html><h1>Hello World, with epoll</h1></html>";
const CLOSED: &[u8] = b"HTTP/1.1 200 OK\r\nContent-Type: text/html\r\nContent-Length: 45\r\nConnection: close\r\n\r\n<html><h1>Hello World, with epoll</h1></html>";
const REPLY: &[u8] = b"HTTP/1.1 200 OK\r\nContent-Type: text/html\r\nContent-Length: 33\r\n\r\n<html><h1>Hello World</h1></html>";

fn response(request: &[u8], keep_alive: bool) -> (Vec<u8>, usize, bool) {
    let mut positions = [HeaderPos::default(); MAX_HEADERS];
    let mut headers = [Header::default(); MAX_HEADERS];
    let parsed = match parse_request(request, &mut positions) {
        ParseStatus::Complete(p) => p,
        _ => panic!("not complete"),
    };
    let request = parsed.resolve(request, &positions, &mut headers);
    match server::build_response(&request, keep_alive) {
        ReadOutcome::Response {
            buf,
            len,
            keep_alive,
        } => (buf.to_vec(), len, keep_alive),
        _ => panic!("no response"),
    }
}

#[test]
fn the_event_driven_response_is_exact() {
    for (keep_alive, expected) in [(true, KEPT), (false, CLOSED)] {
        let (buf, len, kept) = response(b"GET / HTTP/1.1\r\n\r\n", keep_alive);
        assert_eq!(&buf[..len], expected);
        assert!(buf[len..].iter().all(|&b| b == 0));
        assert_eq!(kept, keep_alive);
    }
}

#[test]
fn the_threaded_response_is_exact() {
    assert_eq!(threaded::build_response(), REPLY);
}

#[test]
fn a_response_is_written_part_by_part() {
    let mut out: Vec<u8> = Vec::new();
    let w = ResponseWriter::new(&mut out);
    let w = w.status(404, b"Not Found").unwrap_or_else(|_| panic!());
    let w = w.write_header(b"A", b"b").unwrap_or_else(|_| panic!());
    let w = w.write_header(b"C", b"d").unwrap_or_else(|_| panic!());
    let w = w.write_body(b"gone").unwrap_or_else(|_| panic!());
    assert_eq!(w.end(), None);
    assert_eq!(out, b"HTTP/1.1 404 Not Found\r\nA: b\r\nC: d\r\n\r\ngone");
}

#[test]
fn headers_are_written_as_text() {
    let mut out: Vec<u8> = Vec::new();
    let w = ResponseWriter::new(&mut out);
    let w = w.status(200, b"OK").unwrap_or_else(|_| panic!());
    let w = w
        .write_header("N\u{e9}".as_bytes(), b"x\xffy")
        .unwrap_or_else(|_| panic!());
    let _ = w.write_body(b"");
    assert_eq!(
        out,
        "HTTP/1.1 200 OK\r\nN\u{e9}: x\u{fffd}y\r\n\r\n".as_bytes()
    );
}

#[test]
fn a_full_buffer_takes_what_fits_and_says_so() {
    let mut out = ResponseBuf::new();
    assert!(out.write_all(&[7u8; 8000]).is_ok());
    let w = ResponseWriter::new(&mut out);
    let w = w.status(200, b"OK").unwrap_or_else(|_| panic!());
    match w.write_body(&[8u8; 1000]) {
        Err(e) => assert_eq!(e, WriteError::BufferFull),
        Ok(_) => panic!("written"),
    }
    assert_eq!(out.len, RESPONSE_SIZE);
    assert_eq!(&out.bytes[8000..8019], b"HTTP/1.1 200 OK\r\n\r\n");
    assert!(out.bytes[8019..].iter().all(|&b| b == 8));
    assert_eq!(out.write_all(b"x"), Err(WriteError::BufferFull));
    assert_eq!(out.write_all(b""), Ok(()));
    assert_eq!(out.flush(), Ok(()));
}

#[test]
fn a_reply_that_does_not_fit_is_cut_off() {
    let mut out = ResponseBuf::new();
    assert!(out.write_all(&[7u8; 8150]).is_ok());
    assert_eq!(
        threaded::write_response(&mut out),
        Err(WriteError::BufferFull)
    );
    assert_eq!(&out.bytes[8150..], &REPLY[..RESPONSE_SIZE - 8150]);
}

#[test]
fn lines_are_exact() {
    assert_eq!(status_line(65535, b""), b"HTTP/1.1 65535 \r\n");
    assert_eq!(status_line(0, b"x"), b"HTTP/1.1 0 x\r\n");
    assert_eq!(header_line("a", "\u{fffd}"), "a: \u{fffd}\r\n".as_bytes());
}

#[test]
fn a_number_reads_back() {
    for n in [0u16, 7, 10, 99, 100, 4096, 65535] {
        let digits = decimal_bytes(n);
        assert_eq!(digits, n.to_string().as_bytes());
        assert_eq!(parse_number(&digits), n as usize);
    }
}

#[test]
fn a_request_is_formatted_from_its_parts() {
    let headers = [("A".to_string(), "b".to_string())];
    assert_eq!(
        format_request("GET", "/", 255, &headers, "body"),
        "GET / HTTP/1.255\nA: b\nbody\n"
    );
}

#[test]
fn a_response_can_be_read_as_header_lines() {
    let (buf, len, _) = response(b"GET / HTTP/1.1\r\n\r\n", true);
    let mut text = b"POST / HTTP/1.1\r\n".to_vec();
    text.extend_from_slice(&buf[b"HTTP/1.1 200 OK\r\n".len()..len]);
    let mut positions = [HeaderPos::default(); MAX_HEADERS];
    let mut headers = [Header::default(); MAX_HEADERS];
    let parsed = match parse_request(&text, &mut positions) {
        ParseStatus::Complete(p) => p,
        _ => panic!("not complete"),
    };
    assert_eq!(parsed.consumed + parsed.body_len, text.len());
    let request = parsed.resolve(&text, &positions, &mut headers);
    assert_eq!(
        request.body,
        b"<html><h1>Hello World, with epoll</h1></html>"
    );
    assert_eq!(request.headers[2].value, b"keep-alive");
    assert!(server::wants_keep_alive(&request));
}
