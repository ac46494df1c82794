use http_server::http_req::{HeaderPos, MAX_HEADERS};
use http_server::received::{assess, Received, REQUEST_SIZE};
use http_server::server::{
    handle_read, handle_write, start_read, start_write, IoEvent, ReadOutcome, ReadStep, WriteStep,
};
use http_server::threaded::{serve_read, start_serving, RequestError, ServeStep, Served};

const REQUEST: &[u8] = b"POST /f HTTP/1.1\r\nContent-Length: 5\r\n\r\nhello";

fn feed(buf: &mut [u8; REQUEST_SIZE], read_bytes: &mut usize, bytes: &[u8]) -> ReadStep {
    let mut positions = [HeaderPos::default(); MAX_HEADERS];
    buf[*read_bytes..*read_bytes + bytes.len()].copy_from_slice(bytes);
    handle_read(
        buf,
        read_bytes,
        &mut positions,
        IoEvent::Transferred(bytes.len()),
    )
}

fn serve(bytes: &[u8]) -> Served {
    let mut buf = [0u8; REQUEST_SIZE];
    let mut positions = [HeaderPos::default(); MAX_HEADERS];
    let mut read_bytes: usize = 0;
    buf[..bytes.len()].copy_from_slice(bytes);
    serve_read(&buf, &mut read_bytes, &mut positions, bytes.len())
}

#[test]
fn a_request_is_answered_once_it_is_whole() {
    for size in 1..=REQUEST.len() {
        let mut buf = [0u8; REQUEST_SIZE];
        let mut read_bytes: usize = 0;
        for chunk in REQUEST.chunks(size) {
            let step = feed(&mut buf, &mut read_bytes, chunk);
            if read_bytes < REQUEST.len() {
                assert!(matches!(step, ReadStep::Read), "{size}");
            } else {
                assert!(
                    matches!(
                        step,
                        ReadStep::Done(ReadOutcome::Response {
                            keep_alive: true,
                            ..
                        })
                    ),
                    "{size}"
                );
            }
        }
        assert_eq!(read_bytes, REQUEST.len());
    }
}

#[test]
fn a_request_to_close_is_honoured() {
    let mut buf = [0u8; REQUEST_SIZE];
    let mut read_bytes: usize = 0;
    let step = feed(
        &mut buf,
        &mut read_bytes,
        b"GET / HTTP/1.1\r\nCONNECTION: Close\r\n\r\n",
    );
    assert!(matches!(
        step,
        ReadStep::Done(ReadOutcome::Response {
            keep_alive: false,
            ..
        })
    ));
}

#[test]
fn another_connection_header_keeps_the_connection() {
    let mut buf = [0u8; REQUEST_SIZE];
    let mut read_bytes: usize = 0;
    let step = feed(
        &mut buf,
        &mut read_bytes,
        b"GET / HTTP/1.1\r\nConnection: upgrade\r\nX-Connection: close\r\n\r\n",
    );
    assert!(matches!(
        step,
        ReadStep::Done(ReadOutcome::Response {
            keep_alive: true,
            ..
        })
    ));
}

#[test]
fn bytes_that_are_no_request_close_the_connection() {
    let mut buf = [0u8; REQUEST_SIZE];
    let mut read_bytes: usize = 0;
    let step = feed(&mut buf, &mut read_bytes, b"GET / HTTP/3.0\r\n");
    assert!(matches!(step, ReadStep::Done(ReadOutcome::Close)));
}

#[test]
fn a_full_buffer_closes_the_connection() {
    let mut buf = [0u8; REQUEST_SIZE];
    let mut read_bytes: usize = 0;
    let step = feed(&mut buf, &mut read_bytes, &[b'a'; REQUEST_SIZE - 1]);
    assert!(matches!(step, ReadStep::Read));
    let step = feed(&mut buf, &mut read_bytes, b"a");
    assert!(matches!(step, ReadStep::Done(ReadOutcome::Close)));
    assert!(matches!(
        start_read(REQUEST_SIZE),
        ReadStep::Done(ReadOutcome::Close)
    ));
    assert!(matches!(start_read(REQUEST_SIZE - 1), ReadStep::Read));
}

#[test]
fn a_length_beyond_every_offset_is_told_apart() {
    let text = format!("POST / HTTP/1.1\r\nContent-Length: {}\r\n\r\n", usize::MAX);
    let mut buf = [0u8; REQUEST_SIZE];
    let mut read_bytes: usize = 0;
    let step = feed(&mut buf, &mut read_bytes, text.as_bytes());
    assert!(matches!(step, ReadStep::LengthOverflow));
    assert!(matches!(
        serve(text.as_bytes()).step,
        ServeStep::LengthOverflow
    ));
}

#[test]
fn reads_that_give_no_bytes() {
    let buf = [0u8; REQUEST_SIZE];
    let mut positions = [HeaderPos::default(); MAX_HEADERS];
    let mut read_bytes: usize = 5;
    let mut step = |event| handle_read(&buf, &mut read_bytes, &mut positions, event);
    assert!(matches!(
        step(IoEvent::Transferred(0)),
        ReadStep::Done(ReadOutcome::Close)
    ));
    assert!(matches!(
        step(IoEvent::WouldBlock),
        ReadStep::Done(ReadOutcome::Pending)
    ));
    assert!(matches!(step(IoEvent::Interrupted), ReadStep::Read));
    assert!(matches!(
        step(IoEvent::Failed),
        ReadStep::Done(ReadOutcome::Close)
    ));
    assert_eq!(read_bytes, 5);
}

#[test]
fn a_response_is_sent_until_it_is_out() {
    let mut written: usize = 0;
    assert!(matches!(start_write(10, 0, true), WriteStep::Write));
    let step = handle_write(10, &mut written, true, IoEvent::Transferred(4));
    assert!(matches!(step, WriteStep::Write));
    let step = handle_write(10, &mut written, true, IoEvent::Interrupted);
    assert!(matches!(step, WriteStep::Write));
    let step = handle_write(10, &mut written, true, IoEvent::WouldBlock);
    assert!(matches!(step, WriteStep::Done(ReadOutcome::Pending)));
    assert_eq!(written, 4);
    let step = handle_write(10, &mut written, true, IoEvent::Transferred(6));
    assert!(matches!(step, WriteStep::Done(ReadOutcome::Reset)));
    assert_eq!(written, 10);
    assert!(matches!(
        start_write(10, 10, false),
        WriteStep::Done(ReadOutcome::Close)
    ));
    let mut written: usize = 4;
    let step = handle_write(10, &mut written, true, IoEvent::Transferred(0));
    assert!(matches!(step, WriteStep::Done(ReadOutcome::Close)));
    let step = handle_write(10, &mut written, true, IoEvent::Failed);
    assert!(matches!(step, WriteStep::Done(ReadOutcome::Close)));
}

#[test]
fn progress_is_told() {
    let mut positions = [HeaderPos::default(); MAX_HEADERS];
    assert!(matches!(
        assess(b"GET", &mut positions),
        Received::HeadMissing
    ));
    assert!(matches!(
        assess(&REQUEST[..REQUEST.len() - 1], &mut positions),
        Received::BodyMissing
    ));
    assert!(matches!(
        assess(REQUEST, &mut positions),
        Received::Whole(_)
    ));
    assert!(matches!(
        assess(b"x y HTTP/1.7\r\n", &mut positions),
        Received::Refused
    ));
}

#[test]
fn the_threaded_server_replies_and_logs() {
    let served = serve(REQUEST);
    assert!(!served.head_incomplete);
    match served.step {
        ServeStep::Reply { request, response } => {
            assert_eq!(
                request,
                "POST /f HTTP/1.1\nContent-Length: 5\nhello\n"
            );
            assert!(response.ends_with(b"\r\n\r\n<html><h1>Hello World</h1></html>"));
        }
        _ => panic!("no reply"),
    }
}

#[test]
fn the_threaded_server_reads_on() {
    let served = serve(b"GET / HTT");
    assert!(served.head_incomplete);
    assert!(matches!(served.step, ServeStep::Read));
    let served = serve(&REQUEST[..REQUEST.len() - 1]);
    assert!(!served.head_incomplete);
    assert!(matches!(served.step, ServeStep::Read));
    assert!(matches!(start_serving(0), ServeStep::Read));
}

#[test]
fn the_threaded_server_fails() {
    assert!(matches!(
        serve(b"").step,
        ServeStep::Fail(RequestError::ConnectionClosed)
    ));
    assert!(matches!(
        serve(b"GET / HTTP/9.9\r\n").step,
        ServeStep::Fail(RequestError::Malformed)
    ));
    let served = serve(&[b'a'; REQUEST_SIZE]);
    assert!(served.head_incomplete);
    assert!(matches!(
        served.step,
        ServeStep::Fail(RequestError::TooLarge)
    ));
    assert!(matches!(
        start_serving(REQUEST_SIZE),
        ServeStep::Fail(RequestError::TooLarge)
    ));
    assert_eq!(
        RequestError::TooLarge.message(),
        "request too large for buffer"
    );
    assert_eq!(
        RequestError::ConnectionClosed.message(),
        "connection closed before complete request"
    );
    assert_eq!(RequestError::Malformed.message(), "parse error");
}
