use tldr_ollama::http::{
    body_bytes_to_read, dispatch_reply, error_response_head, find_body_start, get_content_length,
    get_target, response_head, route_request, static_response_head, Dispatch, GetTarget,
    HeaderError, HeaderProgress, HeaderReader, RequestError, Route, MAX_BODY_SIZE,
    MAX_HEADER_SIZE,
};

#[test]
fn content_length_plain() {
    let head = b"POST /api/summarize HTTP/1.1\r\nHost: x\r\nContent-Length: 42\r\n\r\n";
    assert_eq!(get_content_length(head), Some(42));
}

#[test]
fn content_length_any_case() {
    assert_eq!(get_content_length(b"CONTENT-LENGTH:7\r\n"), Some(7));
    assert_eq!(get_content_length(b"content-length:   9   "), Some(9));
}

#[test]
fn content_length_missing() {
    assert_eq!(get_content_length(b"GET / HTTP/1.1\r\nHost: a\r\n\r\n"), None);
    assert_eq!(get_content_length(b""), None);
}

#[test]
fn content_length_first_header_decides() {
    let head = b"Content-Length: abc\r\nContent-Length: 5\r\n";
    assert_eq!(get_content_length(head), None);
}

#[test]
fn content_length_value_stops_at_colon() {
    assert_eq!(get_content_length(b"Content-Length: 12:34\r\n"), Some(12));
}

#[test]
fn content_length_plus_sign_and_overflow() {
    assert_eq!(get_content_length(b"Content-Length: +15\r\n"), Some(15));
    assert_eq!(get_content_length(b"Content-Length: +\r\n"), None);
    assert_eq!(get_content_length(b"Content-Length: -1\r\n"), None);
    assert_eq!(get_content_length(b"Content-Length: 99999999999999999999999\r\n"), None);
    assert_eq!(
        get_content_length(format!("Content-Length: {}\r\n", usize::MAX).as_bytes()),
        Some(usize::MAX)
    );
}

#[test]
fn content_length_unicode_white_space_is_trimmed() {
    let head = "Content-Length: \u{a0}31\u{2003}\r\n";
    assert_eq!(get_content_length(head.as_bytes()), Some(31));
}

#[test]
fn content_length_needs_utf8() {
    let head = b"Content-Length: 3\r\nX: \xff\r\n";
    assert_eq!(get_content_length(head), None);
}

#[test]
fn content_length_header_must_start_the_line() {
    assert_eq!(get_content_length(b"X-Content-Length: 4\r\n"), None);
}

#[test]
fn body_start_found() {
    assert_eq!(find_body_start(b"GET / HTTP/1.1\r\n\r\nbody"), Some(18));
    assert_eq!(find_body_start(b"\r\n\r\n"), Some(4));
    assert_eq!(find_body_start(b"GET / HTTP/1.1\r\n"), None);
    assert_eq!(find_body_start(b""), None);
}

#[test]
fn header_reader_completes_across_reads() {
    let mut r = HeaderReader::new();
    assert_eq!(r.absorb(b"GET / HTTP/1.1\r\n"), Ok(HeaderProgress::NeedMore));
    assert_eq!(r.absorb(b"\r"), Ok(HeaderProgress::NeedMore));
    assert_eq!(r.absorb(b"\nextra"), Ok(HeaderProgress::Complete { body_start: 18 }));
    assert_eq!(r.bytes().as_slice(), b"GET / HTTP/1.1\r\n\r\nextra");
    assert_eq!(r.into_bytes(), b"GET / HTTP/1.1\r\n\r\nextra".to_vec());
}

#[test]
fn header_reader_closed_connection() {
    let mut r = HeaderReader::new();
    assert_eq!(r.absorb(b"GET"), Ok(HeaderProgress::NeedMore));
    assert_eq!(r.absorb(b""), Err(HeaderError::ConnectionClosed));
    assert_eq!(r.bytes().as_slice(), b"GET");
    assert_eq!(HeaderError::ConnectionClosed.message(), "Connection closed while reading headers");
}

#[test]
fn header_reader_too_large() {
    let mut r = HeaderReader::new();
    let chunk = vec![b'a'; 256];
    let mut last = Ok(HeaderProgress::NeedMore);
    let mut reads = 0;
    while last == Ok(HeaderProgress::NeedMore) {
        last = r.absorb(&chunk);
        reads += 1;
    }
    assert_eq!(last, Err(HeaderError::HeadersTooLarge));
    assert_eq!(reads, MAX_HEADER_SIZE / 256 + 1);
    assert_eq!(HeaderError::HeadersTooLarge.message(), "Headers too large");
}

#[test]
fn header_reader_complete_even_when_large() {
    let mut r = HeaderReader::new();
    let mut big = vec![b'a'; MAX_HEADER_SIZE + 10];
    big.extend_from_slice(b"\r\n\r\n");
    assert_eq!(
        r.absorb(&big),
        Ok(HeaderProgress::Complete { body_start: MAX_HEADER_SIZE + 14 })
    );
}

#[test]
fn get_targets() {
    assert_eq!(get_target(b"GET / HTTP/1.1\r"), GetTarget::Index);
    assert_eq!(get_target(b"GET /index.html HTTP/1.1\r"), GetTarget::Index);
    assert_eq!(get_target(b"GET /style.css HTTP/1.1\r"), GetTarget::Stylesheet);
    assert_eq!(get_target(b"GET /script.js HTTP/1.1\r"), GetTarget::Script);
    assert_eq!(get_target(b"GET /api/models HTTP/1.1\r"), GetTarget::ModelList);
    assert_eq!(get_target(b"GET /other HTTP/1.1\r"), GetTarget::Missing);
    assert_eq!(get_target(b"GET /\r"), GetTarget::Missing);
    assert_eq!(get_target(b"GET "), GetTarget::Missing);
    assert_eq!(get_target(b"GET"), GetTarget::Index);
}

#[test]
fn routes() {
    assert_eq!(
        route_request(b"GET /style.css HTTP/1.1\r\nHost: a\r\n\r\n"),
        Ok(Route::Page(GetTarget::Stylesheet))
    );
    assert_eq!(
        route_request(b"\n\nGET / HTTP/1.1\r\n\r\n"),
        Ok(Route::Page(GetTarget::Index))
    );
    assert_eq!(route_request(b"PUT / HTTP/1.1\r\n\r\n"), Ok(Route::NotFound));
    assert_eq!(route_request(b"POST /other HTTP/1.1\r\n\r\n"), Ok(Route::NotFound));
    assert_eq!(route_request(b""), Err(RequestError::EmptyRequest));
    assert_eq!(route_request(b"\n\n\n"), Err(RequestError::EmptyRequest));
}

#[test]
fn summary_routes() {
    assert_eq!(
        route_request(b"POST /api/summarize HTTP/1.1\r\nContent-Length: 10\r\n\r\n"),
        Ok(Route::Summarize { content_length: 10 })
    );
    assert_eq!(
        route_request(b"POST /api/summarize HTTP/1.1\r\n\r\n"),
        Err(RequestError::MissingContentLength)
    );
    let too_big = format!(
        "POST /api/summarize HTTP/1.1\r\nContent-Length: {}\r\n\r\n",
        MAX_BODY_SIZE + 1
    );
    assert_eq!(route_request(too_big.as_bytes()), Err(RequestError::BodyTooLarge));
    let just_right = format!(
        "POST /api/summarize HTTP/1.1\r\nContent-Length: {}\r\n\r\n",
        MAX_BODY_SIZE
    );
    assert_eq!(
        route_request(just_right.as_bytes()),
        Ok(Route::Summarize { content_length: MAX_BODY_SIZE })
    );
}

#[test]
fn request_error_messages() {
    assert_eq!(RequestError::EmptyRequest.message(), "Empty request");
    assert_eq!(
        RequestError::MissingContentLength.message(),
        "Content-Length header is required for POST"
    );
    assert_eq!(RequestError::BodyTooLarge.message(), "Request body too large");
}

#[test]
fn remaining_body() {
    assert_eq!(body_bytes_to_read(3, 10), 7);
    assert_eq!(body_bytes_to_read(10, 10), 0);
    assert_eq!(body_bytes_to_read(12, 10), 0);
}

#[test]
fn response_heads() {
    assert_eq!(
        response_head("200 OK", "application/json", 17),
        "HTTP/1.1 200 OK\r\nContent-Type: application/json\r\nContent-Length: 17\r\nConnection: close\r\n\r\n"
    );
    assert_eq!(
        static_response_head("text/css", 0),
        "HTTP/1.1 200 OK\r\nContent-Type: text/css\r\nContent-Encoding: gzip\r\nContent-Length: 0\r\nConnection: close\r\n\r\n"
    );
    assert_eq!(
        error_response_head("404 Not Found", "Not Found"),
        "HTTP/1.1 404 Not Found\r\nContent-Type: text/plain; charset=utf-8\r\nContent-Length: 9\r\nConnection: close\r\n\r\n"
    );
    assert_eq!(
        error_response_head("500 Internal Server Error", "é"),
        "HTTP/1.1 500 Internal Server Error\r\nContent-Type: text/plain; charset=utf-8\r\nContent-Length: 2\r\nConnection: close\r\n\r\n"
    );
}

#[test]
fn response_length_read_back() {
    for n in [0usize, 7, 10, 1234567, usize::MAX] {
        let head = response_head("201 Created", "text/html", n);
        assert_eq!(get_content_length(head.as_bytes()), Some(n));
        let head = static_response_head("application/javascript", n);
        assert_eq!(get_content_length(head.as_bytes()), Some(n));
    }
}

#[test]
fn dispatch_replies() {
    assert_eq!(dispatch_reply(Dispatch::Queued), None);
    let busy = dispatch_reply(Dispatch::QueueFull).unwrap();
    assert_eq!(busy.status, "503 Service Unavailable");
    assert_eq!(busy.message, "Server is busy, please try again later.");
    let gone = dispatch_reply(Dispatch::PoolGone).unwrap();
    assert_eq!(gone.status, "500 Internal Server Error");
    assert_eq!(gone.message, "Worker pool has been disconnected.");
}

#[test]
fn index_paths_are_served_alike() {
    for rest in ["", "HTTP/1.1\r\nHost: a\r\n\r\n", "x y\n"] {
        let a = route_request(format!("GET / {}", rest).as_bytes());
        let b = route_request(format!("GET /index.html {}", rest).as_bytes());
        assert_eq!(a, b);
        assert_eq!(a, Ok(Route::Page(GetTarget::Index)));
    }
}

#[test]
fn found_length_kept_after_more_lines() {
    let head = "POST /api/summarize HTTP/1.1\r\nContent-Length: 12\r\n";
    for more in ["", "Content-Length: 99", "X: é\r\n\r\n"] {
        let text = format!("{}\n{}", head, more);
        assert_eq!(get_content_length(text.as_bytes()), Some(12));
    }
}
