//! HTTP/1.1 request heads: reading them in, routing them, and the heads of
//! the responses that the service sends back.

use vstd::prelude::*;
use vstd::string::StringSliceAdditionalSpecFns;
use vstd::utf8::*;

use crate::text::{
    is_digit,
    lemma_decimal_text, law_decimal_read_back, lemma_trim_padded_digits,
    ascii_lower, bytes_equal, bytes_start_with, decimal_text, find_byte, push_decimal, char_to_ascii_lowercase, chars_of, find_char, index_of, lemma_index_of,
    parse_unsigned, parse_usize, str_from_utf8, trim, trim_range, unsigned_value,
};

verus! {

/// `"content-length:"`, the prefix that marks the body-length header line
/// once the line is lower-cased.
pub open spec fn length_header_prefix() -> Seq<char> {
    seq!['c', 'o', 'n', 't', 'e', 'n', 't', '-', 'l', 'e', 'n', 'g', 't', 'h', ':']
}

/// Whether `line`, lower-cased as ASCII, starts with `"content-length:"`.
pub open spec fn is_length_header(line: Seq<char>) -> bool {
    &&& line.len() >= 15
    &&& forall|k: int| 0 <= k < 15 ==> ascii_lower(#[trigger] line[k]) == length_header_prefix()[k]
}

/// The start of the first `'\n'`-separated line of `text`, at or after
/// `start`, that is a body-length header.
pub open spec fn length_line_from(text: Seq<char>, start: int) -> Option<int>
    decreases text.len() - start,
{
    if start < 0 || start > text.len() {
        None
    } else {
        let end = index_of(text, '\n', start);
        proof {
            lemma_index_of(text, '\n', start);
        }
        if is_length_header(text.subrange(start, end)) {
            Some(start)
        } else if end >= text.len() {
            None
        } else {
            length_line_from(text, end + 1)
        }
    }
}

/// The body length that a request head announces, read from its text: the
/// first line whose lower-cased form starts with `"content-length:"`; the
/// text between that line's first `':'` (the one the prefix ends with) and
/// its next `':'` or its end, with white space trimmed, read as a `usize`.
/// `None` when no line is such a header or its value is no `usize`.
pub open spec fn content_length_of(text: Seq<char>) -> Option<usize> {
    match length_line_from(text, 0) {
        None => None,
        Some(start) => {
            let line_end = index_of(text, '\n', start);
            let value_end = index_of(text.subrange(0, line_end), ':', start + 15);
            parse_usize(trim(text.subrange(start + 15, value_end)))
        },
    }
}

/// The body length that the request head `headers` announces: `None` when
/// the bytes are not UTF-8, else `content_length_of` their text.
pub open spec fn content_length_of_bytes(headers: Seq<u8>) -> Option<usize> {
    if valid_utf8(headers) {
        content_length_of(decode_utf8(headers))
    } else {
        None
    }
}

/// Whether the characters `s[start..end]` form a body-length header line.
fn is_length_header_at(s: &[char], start: usize, end: usize) -> (r: bool)
    requires
        start <= end <= s@.len(),
    ensures
        r == is_length_header(s@.subrange(start as int, end as int)),
{
    let ghost line = s@.subrange(start as int, end as int);
    if end - start < 15 {
        return false;
    }
    let prefix: [char; 15] = [
        'c', 'o', 'n', 't', 'e', 'n', 't', '-', 'l', 'e', 'n', 'g', 't', 'h', ':',
    ];
    assert(prefix@ =~= length_header_prefix());
    let mut k: usize = 0;
    while k < 15
        invariant
            start + 15 <= end <= s@.len(),
            line == s@.subrange(start as int, end as int),
            prefix@ == length_header_prefix(),
            0 <= k <= 15,
            forall|j: int| 0 <= j < k ==> ascii_lower(#[trigger] line[j]) == length_header_prefix()[j],
        decreases 15 - k,
    {
        let lower = char_to_ascii_lowercase(s[start + k]);
        assert(line[k as int] == s@[start + k]);
        if lower != prefix[k] {
            return false;
        }
        k = k + 1;
    }
    true
}

/// The body length that the request head `text` announces (see
/// `content_length_of`).
pub fn content_length_of_text(text: &str) -> (r: Option<usize>)
    ensures
        r == content_length_of(text@),
{
    let chars = chars_of(text);
    let s = chars.as_slice();
    let ghost t = text@;
    let mut start: usize = 0;
    loop
        invariant
            s@ == t,
            t == text@,
            0 <= start <= s@.len(),
            length_line_from(t, start as int) == length_line_from(t, 0),
        decreases s@.len() - start,
    {
        let end = find_char(s, '\n', start);
        proof {
            lemma_index_of(t, '\n', start as int);
        }
        if is_length_header_at(s, start, end) {
            assert(length_line_from(t, 0) == Some(start as int));
            let value_end = find_char_before(s, ':', start + 15, end);
            let (a, b) = trim_range(s, start + 15, value_end);
            let v = parse_unsigned(s, a, b, usize::MAX as u64);
            proof {
                let line_end = index_of(t, '\n', start as int);
                assert(line_end == end);
                assert(s@.subrange(a as int, b as int) == trim(t.subrange(start + 15, value_end as int)));
            }
            return match v {
                Some(n) => Some(n as usize),
                None => None,
            };
        }
        if end >= s.len() {
            return None;
        }
        start = end + 1;
    }
}

/// `index_of(s@.subrange(0, end), c, from)`.
fn find_char_before(s: &[char], c: char, from: usize, end: usize) -> (r: usize)
    requires
        from <= end <= s@.len(),
    ensures
        r == index_of(s@.subrange(0, end as int), c, from as int),
        from <= r <= end,
{
    let ghost p = s@.subrange(0, end as int);
    let mut i = from;
    while i < end && s[i] != c
        invariant
            from <= i <= end <= s@.len(),
            p == s@.subrange(0, end as int),
            index_of(p, c, i as int) == index_of(p, c, from as int),
        decreases end - i,
    {
        i = i + 1;
    }
    i
}

/// The body length that the request head `headers` announces: the bytes are
/// read as UTF-8 text (`None` when they are not UTF-8), and the text as
/// `content_length_of` says.
pub fn get_content_length(headers: &[u8]) -> (r: Option<usize>)
    ensures
        r == content_length_of_bytes(headers@),
{
    match str_from_utf8(headers) {
        None => None,
        Some(text) => content_length_of_text(text),
    }
}

/// The largest request head, in bytes, that is read before giving up.
pub const MAX_HEADER_SIZE: usize = 8 * 1024;

/// The largest request body, in bytes, that is accepted.
pub const MAX_BODY_SIZE: usize = 10 * 1024 * 1024;

/// Whether `s` holds `"\r\n\r\n"` at position `i`.
pub open spec fn terminator_at(s: Seq<u8>, i: int) -> bool {
    &&& 0 <= i
    &&& i + 4 <= s.len()
    &&& s[i] == 13u8
    &&& s[i + 1] == 10u8
    &&& s[i + 2] == 13u8
    &&& s[i + 3] == 10u8
}

/// The first position at or after `from` where `"\r\n\r\n"` starts in `s`.
pub open spec fn first_terminator_from(s: Seq<u8>, from: int) -> Option<int>
    decreases s.len() - from,
{
    if from < 0 || from + 4 > s.len() {
        None
    } else if terminator_at(s, from) {
        Some(from)
    } else {
        first_terminator_from(s, from + 1)
    }
}

/// Where the body starts in `s`: just after the first `"\r\n\r\n"`.
pub open spec fn body_start_of(s: Seq<u8>) -> Option<int> {
    match first_terminator_from(s, 0) {
        Some(i) => Some(i + 4),
        None => None,
    }
}

pub proof fn lemma_first_terminator(s: Seq<u8>, from: int)
    requires
        0 <= from,
    ensures
        match first_terminator_from(s, from) {
            Some(i) => from <= i && terminator_at(s, i) && forall|j: int|
                from <= j < i ==> !terminator_at(s, j),
            None => forall|j: int| from <= j ==> !terminator_at(s, j),
        },
    decreases s.len() - from,
{
    if from + 4 <= s.len() && !terminator_at(s, from) {
        lemma_first_terminator(s, from + 1);
    }
}

/// Where the body starts in `buf` (see `body_start_of`).
pub fn find_body_start(buf: &[u8]) -> (r: Option<usize>)
    ensures
        r matches Some(b) ==> body_start_of(buf@) == Some(b as int),
        r is None ==> body_start_of(buf@) is None,
{
    let mut i: usize = 0;
    while buf.len() >= 4 && i <= buf.len() - 4
        invariant
            i <= buf@.len(),
            first_terminator_from(buf@, i as int) == first_terminator_from(buf@, 0),
        decreases buf@.len() - i,
    {
        if buf[i] == 13 && buf[i + 1] == 10 && buf[i + 2] == 13 && buf[i + 3] == 10 {
            return Some(i + 4);
        }
        i = i + 1;
    }
    None
}

/// How far the reading of a request head has come.
#[derive(Debug, Clone, Copy, PartialEq, Eq, Structural)]
pub enum HeaderProgress {
    /// The head is complete; the body starts at this offset of the buffer.
    Complete { body_start: usize },
    /// More bytes are needed.
    NeedMore,
}

/// Why a request head could not be read.
#[derive(Debug, Clone, Copy, PartialEq, Eq, Structural)]
pub enum HeaderError {
    /// The peer closed the connection before the head was complete.
    ConnectionClosed,
    /// The head grew past `MAX_HEADER_SIZE` without ending.
    HeadersTooLarge,
}

impl HeaderError {
    /// The text that the error is reported with.
    pub fn message(&self) -> (r: &'static str)
        ensures
            r@ == (match self {
                HeaderError::ConnectionClosed => "Connection closed while reading headers"@,
                HeaderError::HeadersTooLarge => "Headers too large"@,
            }),
    {
        match self {
            HeaderError::ConnectionClosed => "Connection closed while reading headers",
            HeaderError::HeadersTooLarge => "Headers too large",
        }
    }
}

/// What reading a request head gives after the bytes `buffer` have arrived
/// (the last read having brought at least one byte).
pub open spec fn header_progress(buffer: Seq<u8>) -> Result<HeaderProgress, HeaderError> {
    match body_start_of(buffer) {
        Some(b) => Ok(HeaderProgress::Complete { body_start: b as usize }),
        None => if buffer.len() > MAX_HEADER_SIZE {
            Err(HeaderError::HeadersTooLarge)
        } else {
            Ok(HeaderProgress::NeedMore)
        },
    }
}

/// The bytes of a request head received so far.
pub struct HeaderReader {
    buffer: Vec<u8>,
}

impl View for HeaderReader {
    type V = Seq<u8>;

    closed spec fn view(&self) -> Seq<u8> {
        self.buffer@
    }
}

impl HeaderReader {
    /// A reader that has received nothing.
    pub fn new() -> (r: HeaderReader)
        ensures
            r@ == Seq::<u8>::empty(),
    {
        HeaderReader { buffer: Vec::new() }
    }

    /// Takes in the bytes of one read. An empty read means that the peer
    /// closed the connection; otherwise the bytes are added to the buffer,
    /// and the head is complete once the buffer holds `"\r\n\r\n"`.
    pub fn absorb(&mut self, chunk: &[u8]) -> (r: Result<HeaderProgress, HeaderError>)
        ensures
            chunk@.len() == 0 ==> r == Err::<HeaderProgress, HeaderError>(
                HeaderError::ConnectionClosed,
            ) && final(self)@ == old(self)@,
            chunk@.len() > 0 ==> final(self)@ == old(self)@ + chunk@ && r == header_progress(
                final(self)@,
            ),
    {
        if chunk.len() == 0 {
            return Err(HeaderError::ConnectionClosed);
        }
        let ghost start = self.buffer@;
        let mut k: usize = 0;
        while k < chunk.len()
            invariant
                0 <= k <= chunk@.len(),
                self.buffer@ == start + chunk@.take(k as int),
            decreases chunk@.len() - k,
        {
            self.buffer.push(chunk[k]);
            proof {
                assert(chunk@.take(k + 1) =~= chunk@.take(k as int).push(chunk@[k as int]));
            }
            k = k + 1;
        }
        assert(chunk@.take(k as int) =~= chunk@);
        match find_body_start(self.buffer.as_slice()) {
            Some(b) => Ok(HeaderProgress::Complete { body_start: b }),
            None => if self.buffer.len() > MAX_HEADER_SIZE {
                Err(HeaderError::HeadersTooLarge)
            } else {
                Ok(HeaderProgress::NeedMore)
            },
        }
    }

    /// The bytes received so far.
    pub fn bytes(&self) -> (r: &Vec<u8>)
        ensures
            r@ == self@,
    {
        &self.buffer
    }

    /// The bytes received so far, handed over.
    pub fn into_bytes(self) -> (r: Vec<u8>)
        ensures
            r@ == self@,
    {
        self.buffer
    }
}

/// Whether `s` starts with `prefix`.
pub open spec fn starts_with(s: Seq<u8>, prefix: Seq<u8>) -> bool {
    prefix.len() <= s.len() && s.subrange(0, prefix.len() as int) == prefix
}

/// The first non-empty `'\n'`-separated line of `data` at or after `start`:
/// its bounds.
pub open spec fn first_line_from(data: Seq<u8>, start: int) -> Option<(int, int)>
    decreases data.len() - start,
{
    if start < 0 || start > data.len() {
        None
    } else {
        let end = index_of(data, 10u8, start);
        proof {
            lemma_index_of(data, 10u8, start);
        }
        if end > start {
            Some((start, end))
        } else if end >= data.len() {
            None
        } else {
            first_line_from(data, end + 1)
        }
    }
}

/// The request line of a request head: its first non-empty line, with any
/// `'\r'` kept.
pub open spec fn request_line_of(data: Seq<u8>) -> Option<Seq<u8>> {
    match first_line_from(data, 0) {
        Some((a, b)) => Some(data.subrange(a, b)),
        None => None,
    }
}

/// The path of a request line: the text between its first and second
/// space (or its end); `"/"` when the line holds no space.
pub open spec fn request_path(line: Seq<u8>) -> Seq<u8> {
    let sp = index_of(line, 32u8, 0);
    if sp >= line.len() {
        "/".spec_bytes()
    } else {
        line.subrange(sp + 1, index_of(line, 32u8, sp + 1))
    }
}

/// What a `GET` request asks for.
#[derive(Debug, Clone, Copy, PartialEq, Eq, Structural)]
pub enum GetTarget {
    /// The page itself, at `/` or `/index.html`.
    Index,
    /// `/style.css`.
    Stylesheet,
    /// `/script.js`.
    Script,
    /// `/api/models`: the models that the Ollama server has.
    ModelList,
    /// Any other path.
    Missing,
}

/// The target that `path` names.
pub open spec fn target_of_path(path: Seq<u8>) -> GetTarget {
    if path == "/".spec_bytes() || path == "/index.html".spec_bytes() {
        GetTarget::Index
    } else if path == "/style.css".spec_bytes() {
        GetTarget::Stylesheet
    } else if path == "/script.js".spec_bytes() {
        GetTarget::Script
    } else if path == "/api/models".spec_bytes() {
        GetTarget::ModelList
    } else {
        GetTarget::Missing
    }
}

/// The target of the request line `s[start..end]`.
fn target_in(s: &[u8], start: usize, end: usize) -> (r: GetTarget)
    requires
        start <= end <= s@.len(),
    ensures
        r == target_of_path(request_path(s@.subrange(start as int, end as int))),
{
    let ghost line = s@.subrange(start as int, end as int);
    let sp = find_byte_before(s, 32u8, start, start, end);
    if sp >= end {
        return GetTarget::Index;
    }
    let a = sp + 1;
    let b = find_byte_before(s, 32u8, start, a, end);
    proof {
        assert(line.subrange(a - start, b - start) =~= s@.subrange(a as int, b as int));
        assert(request_path(line) == s@.subrange(a as int, b as int));
    }
    if bytes_equal(s, a, b, "/".as_bytes()) || bytes_equal(s, a, b, "/index.html".as_bytes()) {
        GetTarget::Index
    } else if bytes_equal(s, a, b, "/style.css".as_bytes()) {
        GetTarget::Stylesheet
    } else if bytes_equal(s, a, b, "/script.js".as_bytes()) {
        GetTarget::Script
    } else if bytes_equal(s, a, b, "/api/models".as_bytes()) {
        GetTarget::ModelList
    } else {
        GetTarget::Missing
    }
}

/// `start + index_of(s@.subrange(start, end), b, from - start)`: the first
/// `b` in `s[from..end]`, or `end`.
fn find_byte_before(s: &[u8], b: u8, start: usize, from: usize, end: usize) -> (r: usize)
    requires
        start <= from <= end <= s@.len(),
    ensures
        from <= r <= end,
        r - start == index_of(s@.subrange(start as int, end as int), b, from - start),
{
    let ghost p = s@.subrange(start as int, end as int);
    let mut i = from;
    while i < end && s[i] != b
        invariant
            start <= from <= i <= end <= s@.len(),
            p == s@.subrange(start as int, end as int),
            index_of(p, b, i - start) == index_of(p, b, from - start),
        decreases end - i,
    {
        i = i + 1;
    }
    i
}

/// The target of a `GET` request line: the path between its first and second
/// space (`"/"` when it holds no space) names it.
pub fn get_target(request_line: &[u8]) -> (r: GetTarget)
    ensures
        r == target_of_path(request_path(request_line@)),
{
    assert(request_line@.subrange(0, request_line@.len() as int) =~= request_line@);
    target_in(request_line, 0, request_line.len())
}

/// The bounds of the first non-empty line of `data`.
fn first_line(data: &[u8]) -> (r: Option<(usize, usize)>)
    ensures
        r matches Some((a, b)) ==> first_line_from(data@, 0) == Some((a as int, b as int)) && a
            < b <= data@.len(),
        r is None ==> first_line_from(data@, 0) is None,
{
    let mut start: usize = 0;
    loop
        invariant
            start <= data@.len(),
            first_line_from(data@, start as int) == first_line_from(data@, 0),
        decreases data@.len() - start,
    {
        let end = find_byte(data, 10u8, start);
        proof {
            lemma_index_of(data@, 10u8, start as int);
        }
        if end > start {
            return Some((start, end));
        }
        if end >= data.len() {
            return None;
        }
        start = end + 1;
    }
}

/// Why a request was refused before any work was done for it.
#[derive(Debug, Clone, Copy, PartialEq, Eq, Structural)]
pub enum RequestError {
    /// The head holds no line.
    EmptyRequest,
    /// A summary request without a readable `Content-Length`.
    MissingContentLength,
    /// A summary request whose body is longer than `MAX_BODY_SIZE`.
    BodyTooLarge,
}

impl RequestError {
    /// The text that the error is reported with.
    pub fn message(&self) -> (r: &'static str)
        ensures
            r@ == (match self {
                RequestError::EmptyRequest => "Empty request"@,
                RequestError::MissingContentLength => "Content-Length header is required for POST"@,
                RequestError::BodyTooLarge => "Request body too large"@,
            }),
    {
        match self {
            RequestError::EmptyRequest => "Empty request",
            RequestError::MissingContentLength => "Content-Length header is required for POST",
            RequestError::BodyTooLarge => "Request body too large",
        }
    }
}

/// What the service does with a request.
#[derive(Debug, Clone, Copy, PartialEq, Eq, Structural)]
pub enum Route {
    /// Serve the target of a `GET`.
    Page(GetTarget),
    /// Read a body of this many bytes and summarize what it asks for.
    Summarize { content_length: usize },
    /// Answer `404 Not Found`.
    NotFound,
}

/// How the service answers the request whose head, up to the blank line, is
/// `data`: by its request line, `GET ` requests by their path, and
/// `POST /api/summarize` requests by their body length, which must be given
/// and at most `MAX_BODY_SIZE`; any other request is not found.
pub open spec fn route_of(data: Seq<u8>) -> Result<Route, RequestError> {
    match request_line_of(data) {
        None => Err(RequestError::EmptyRequest),
        Some(line) => if starts_with(line, "GET ".spec_bytes()) {
            Ok(Route::Page(target_of_path(request_path(line))))
        } else if starts_with(line, "POST /api/summarize".spec_bytes()) {
            match content_length_of_bytes(data) {
                None => Err(RequestError::MissingContentLength),
                Some(n) => if n > MAX_BODY_SIZE {
                    Err(RequestError::BodyTooLarge)
                } else {
                    Ok(Route::Summarize { content_length: n })
                },
            }
        } else {
            Ok(Route::NotFound)
        },
    }
}

/// Routes the request whose head, up to the blank line, is `request_data`.
pub fn route_request(request_data: &[u8]) -> (r: Result<Route, RequestError>)
    ensures
        r == route_of(request_data@),
{
    let (a, b) = match first_line(request_data) {
        None => return Err(RequestError::EmptyRequest),
        Some(bounds) => bounds,
    };
    let ghost line = request_data@.subrange(a as int, b as int);
    let get_prefix = "GET ".as_bytes();
    let post_prefix = "POST /api/summarize".as_bytes();
    let is_get = bytes_start_with(request_data, a, b, get_prefix);
    proof {
        if get_prefix@.len() <= b - a {
            assert(line.subrange(0, get_prefix@.len() as int) =~= request_data@.subrange(
                a as int,
                a + get_prefix@.len(),
            ));
        }
    }
    if is_get {
        return Ok(Route::Page(target_in(request_data, a, b)));
    }
    let is_post = bytes_start_with(request_data, a, b, post_prefix);
    proof {
        if post_prefix@.len() <= b - a {
            assert(line.subrange(0, post_prefix@.len() as int) =~= request_data@.subrange(
                a as int,
                a + post_prefix@.len(),
            ));
        }
    }
    if is_post {
        match get_content_length(request_data) {
            None => Err(RequestError::MissingContentLength),
            Some(n) => if n > MAX_BODY_SIZE {
                Err(RequestError::BodyTooLarge)
            } else {
                Ok(Route::Summarize { content_length: n })
            },
        }
    } else {
        Ok(Route::NotFound)
    }
}

/// How many body bytes are still to be read once `initial_len` bytes of it
/// came with the head: what is missing of `content_length`, or nothing.
pub fn body_bytes_to_read(initial_len: usize, content_length: usize) -> (r: usize)
    ensures
        r == (if content_length > initial_len { content_length - initial_len } else { 0 }),
{
    if content_length > initial_len {
        content_length - initial_len
    } else {
        0
    }
}

/// The head of a response with the given status line text, content type
/// and body length.
pub open spec fn response_head_text(status: Seq<char>, content_type: Seq<char>, length: nat) -> Seq<
    char,
> {
    "HTTP/1.1 "@ + status + "\r\nContent-Type: "@ + content_type + "\r\nContent-Length: "@
        + decimal_text(length) + "\r\nConnection: close\r\n\r\n"@
}

/// The head of a `200 OK` response that serves gzip-compressed content of
/// the given type and length.
pub open spec fn static_head_text(content_type: Seq<char>, length: nat) -> Seq<char> {
    "HTTP/1.1 200 OK\r\nContent-Type: "@ + content_type
        + "\r\nContent-Encoding: gzip\r\nContent-Length: "@ + decimal_text(length)
        + "\r\nConnection: close\r\n\r\n"@
}

/// The head of a response (see `response_head_text`).
pub fn response_head(status: &str, content_type: &str, content_length: usize) -> (r: String)
    ensures
        r@ == response_head_text(status@, content_type@, content_length as nat),
{
    let mut head = String::new();
    head.append("HTTP/1.1 ");
    head.append(status);
    head.append("\r\nContent-Type: ");
    head.append(content_type);
    head.append("\r\nContent-Length: ");
    push_decimal(&mut head, content_length);
    head.append("\r\nConnection: close\r\n\r\n");
    head
}

/// The head of a response that serves gzip-compressed content (see
/// `static_head_text`).
pub fn static_response_head(content_type: &str, content_length: usize) -> (r: String)
    ensures
        r@ == static_head_text(content_type@, content_length as nat),
{
    let mut head = String::new();
    head.append("HTTP/1.1 200 OK\r\nContent-Type: ");
    head.append(content_type);
    head.append("\r\nContent-Encoding: gzip\r\nContent-Length: ");
    push_decimal(&mut head, content_length);
    head.append("\r\nConnection: close\r\n\r\n");
    head
}

/// The content type of error responses.
pub open spec fn plain_text_type() -> Seq<char> {
    "text/plain; charset=utf-8"@
}

/// The head of an error response with the given status, whose body is the
/// UTF-8 bytes of `message` (`message.len()` of them).
pub fn error_response_head(status: &str, message: &str) -> (r: String)
    ensures
        r@ == response_head_text(status@, plain_text_type(), message.len() as nat),
{
    response_head(status, "text/plain; charset=utf-8", message.len())
}

/// What became of handing a new connection to the worker pool.
#[derive(Debug, Clone, Copy, PartialEq, Eq, Structural)]
pub enum Dispatch {
    /// A worker will take it.
    Queued,
    /// The queue of waiting connections is full.
    QueueFull,
    /// No worker is left to take it.
    PoolGone,
}

/// The status and text of an error response.
#[derive(Debug, PartialEq, Eq)]
pub struct ErrorReply {
    pub status: String,
    pub message: String,
}

/// The error response that a connection gets when it cannot be handed to a
/// worker; `None` when it was handed over.
pub fn dispatch_reply(outcome: Dispatch) -> (r: Option<ErrorReply>)
    ensures
        outcome == Dispatch::Queued ==> r is None,
        outcome == Dispatch::QueueFull ==> (r matches Some(e) && e.status@
            == "503 Service Unavailable"@ && e.message@
            == "Server is busy, please try again later."@),
        outcome == Dispatch::PoolGone ==> (r matches Some(e) && e.status@
            == "500 Internal Server Error"@ && e.message@ == "Worker pool has been disconnected."@),
{
    match outcome {
        Dispatch::Queued => None,
        Dispatch::QueueFull => Some(
            ErrorReply {
                status: String::from_str("503 Service Unavailable"),
                message: String::from_str("Server is busy, please try again later."),
            },
        ),
        Dispatch::PoolGone => Some(
            ErrorReply {
                status: String::from_str("500 Internal Server Error"),
                message: String::from_str("Worker pool has been disconnected."),
            },
        ),
    }
}

proof fn lemma_index_of_run(t: Seq<char>, start: int, len: int)
    requires
        0 <= start,
        0 <= len,
        start + len <= t.len(),
        forall|k: int| start <= k < start + len ==> t[k] != '\n',
        start + len == t.len() || t[start + len] == '\n',
    ensures
        index_of(t, '\n', start) == start + len,
    decreases len,
{
    if len > 0 {
        lemma_index_of_run(t, start + 1, len - 1);
    }
}

/// Skipping a line that is no body-length header.
proof fn lemma_skip_line(t: Seq<char>, start: int, line: Seq<char>)
    requires
        0 <= start,
        start + line.len() < t.len(),
        t.subrange(start, start + line.len()) == line,
        !line.contains('\n'),
        t[start + line.len()] == '\n',
        !is_length_header(line),
    ensures
        length_line_from(t, start) == length_line_from(t, start + line.len() + 1),
{
    assert forall|k: int| start <= k < start + line.len() implies t[k] != '\n' by {
        assert(t[k] == line[k - start]);
    }
    lemma_index_of_run(t, start, line.len() as int);
}

/// `"Content-Length: "`, as the service writes it.
pub open spec fn length_header_name() -> Seq<char> {
    seq!['C', 'o', 'n', 't', 'e', 'n', 't', '-', 'L', 'e', 'n', 'g', 't', 'h', ':', ' ']
}

/// The line `Content-Type: <content_type>\r`.
pub open spec fn type_line(content_type: Seq<char>) -> Seq<char> {
    seq!['C', 'o', 'n', 't', 'e', 'n', 't', '-', 'T', 'y', 'p', 'e', ':', ' '] + content_type
        + seq!['\r']
}

proof fn lemma_type_line(content_type: Seq<char>)
    requires
        !content_type.contains('\n'),
    ensures
        !type_line(content_type).contains('\n'),
        !is_length_header(type_line(content_type)),
{
    let l = type_line(content_type);
    if l.contains('\n') {
        let k = choose|k: int| 0 <= k < l.len() && l[k] == '\n';
        assert(content_type[k - 14] == '\n');
    }
    assert(l[8] == 'T');
    assert(ascii_lower('T') == 't');
}

/// A text whose first body-length header line is `Content-Length: <n>\r`
/// announces `n`.
proof fn lemma_length_line_at(t: Seq<char>, start: int, n: usize)
    requires
        0 <= start,
        start + length_header_name().len() + decimal_text(n as nat).len() + 1 < t.len(),
        t.subrange(start, start + length_header_name().len() + decimal_text(n as nat).len() + 1)
            == length_header_name() + decimal_text(n as nat) + seq!['\r'],
        t[start + length_header_name().len() + decimal_text(n as nat).len() + 1] == '\n',
        length_line_from(t, 0) == length_line_from(t, start),
    ensures
        content_length_of(t) == Some(n),
{
    let cl = length_header_name();
    let d = decimal_text(n as nat);
    lemma_decimal_text(n as nat);
    let third = cl + d + seq!['\r'];
    let end = start + third.len();
    assert forall|k: int| 0 <= k < 15 implies ascii_lower(#[trigger] third[k])
        == length_header_prefix()[k] by {
        assert(third[k] == cl[k]);
    }
    assert(is_length_header(t.subrange(start, end)));
    assert forall|k: int| start <= k < end implies t[k] != '\n' by {
        assert(t[k] == third[k - start]);
        if k - start >= 16 && k - start < 16 + d.len() {
            assert(is_digit(d[k - start - 16]));
        }
    }
    lemma_index_of_run(t, start, third.len() as int);
    assert(length_line_from(t, start) == Some(start));
    let head = t.subrange(0, end);
    assert forall|k: int| start + 15 <= k < end implies head[k] != ':' by {
        assert(head[k] == third[k - start]);
        if k - start >= 16 && k - start < 16 + d.len() {
            assert(is_digit(d[k - start - 16]));
        }
    }
    lemma_index_of_colon_free(head, start + 15, end);
    let sub = t.subrange(start, end);
    assert(t.subrange(start + 15, end) =~= sub.subrange(15, sub.len() as int));
    assert(third.subrange(15, third.len() as int) =~= seq![' '] + d + seq!['\r']);
    lemma_trim_padded_digits(d);
    law_decimal_read_back(n);
}

proof fn lemma_index_of_colon_free(s: Seq<char>, from: int, end: int)
    requires
        0 <= from <= end,
        end == s.len(),
        forall|k: int| from <= k < end ==> s[k] != ':',
    ensures
        index_of(s, ':', from) == end,
    decreases end - from,
{
    if from < end {
        lemma_index_of_colon_free(s, from + 1, end);
    }
}

/// The body length that a response head announces is read back from it:
/// `content_length_of`, which the service reads request heads with, gives
/// the length for the head of every response it writes, whatever status and
/// content type (free of line breaks) the head carries.
pub proof fn law_response_length_read_back(status: Seq<char>, content_type: Seq<char>, n: usize)
    requires
        !status.contains('\n'),
        !content_type.contains('\n'),
    ensures
        content_length_of(response_head_text(status, content_type, n as nat)) == Some(n),
{
    reveal_strlit("HTTP/1.1 ");
    reveal_strlit("\r\nContent-Type: ");
    reveal_strlit("\r\nContent-Length: ");
    reveal_strlit("\r\nConnection: close\r\n\r\n");
    let first = "HTTP/1.1 "@ + status + seq!['\r'];
    let second = type_line(content_type);
    let third = length_header_name() + decimal_text(n as nat) + seq!['\r'];
    let tail = seq!['C', 'o', 'n', 'n', 'e', 'c', 't', 'i', 'o', 'n', ':', ' ', 'c', 'l', 'o', 's', 'e', '\r', '\n', '\r', '\n'];
    let t = response_head_text(status, content_type, n as nat);
    assert(t =~= first + seq!['\n'] + second + seq!['\n'] + third + seq!['\n'] + tail);
    assert(!first.contains('\n')) by {
        if first.contains('\n') {
            let k = choose|k: int| 0 <= k < first.len() && first[k] == '\n';
            assert(status[k - 9] == '\n');
        }
    }
    assert(first[0] == 'H');
    assert(ascii_lower('H') == 'h');
    let p1 = first.len() as int;
    let p2 = p1 + 1 + second.len();
    assert(t.subrange(0, p1) =~= first);
    lemma_skip_line(t, 0, first);
    lemma_type_line(content_type);
    assert(t.subrange(p1 + 1, p2) =~= second);
    lemma_skip_line(t, p1 + 1, second);
    assert(t.subrange(p2 + 1, p2 + 1 + third.len()) =~= third);
    lemma_length_line_at(t, p2 + 1, n);
}

/// The same for the heads of the gzip-compressed static responses.
pub proof fn law_static_length_read_back(content_type: Seq<char>, n: usize)
    requires
        !content_type.contains('\n'),
    ensures
        content_length_of(static_head_text(content_type, n as nat)) == Some(n),
{
    reveal_strlit("HTTP/1.1 200 OK\r\nContent-Type: ");
    reveal_strlit("\r\nContent-Encoding: gzip\r\nContent-Length: ");
    reveal_strlit("\r\nConnection: close\r\n\r\n");
    let first = seq!['H', 'T', 'T', 'P', '/', '1', '.', '1', ' ', '2', '0', '0', ' ', 'O', 'K', '\r'];
    let second = type_line(content_type);
    let encoding = seq!['C', 'o', 'n', 't', 'e', 'n', 't', '-', 'E', 'n', 'c', 'o', 'd', 'i', 'n', 'g', ':', ' ', 'g', 'z', 'i', 'p', '\r'];
    let third = length_header_name() + decimal_text(n as nat) + seq!['\r'];
    let tail = seq!['C', 'o', 'n', 'n', 'e', 'c', 't', 'i', 'o', 'n', ':', ' ', 'c', 'l', 'o', 's', 'e', '\r', '\n', '\r', '\n'];
    let t = static_head_text(content_type, n as nat);
    assert(t =~= first + seq!['\n'] + second + seq!['\n'] + encoding + seq!['\n'] + third
        + seq!['\n'] + tail);
    assert(ascii_lower('H') == 'h');
    assert(!is_length_header(first));
    assert(!first.contains('\n'));
    assert(ascii_lower('E') == 'e');
    assert(!is_length_header(encoding));
    assert(!encoding.contains('\n'));
    let p1 = first.len() as int;
    let p2 = p1 + 1 + second.len();
    let p3 = p2 + 1 + encoding.len();
    assert(t.subrange(0, p1) =~= first);
    lemma_skip_line(t, 0, first);
    lemma_type_line(content_type);
    assert(t.subrange(p1 + 1, p2) =~= second);
    lemma_skip_line(t, p1 + 1, second);
    assert(t.subrange(p2 + 1, p3) =~= encoding);
    lemma_skip_line(t, p2 + 1, encoding);
    assert(t.subrange(p3 + 1, p3 + 1 + third.len()) =~= third);
    lemma_length_line_at(t, p3 + 1, n);
}

proof fn lemma_index_of_extended(t: Seq<char>, u: Seq<char>, start: int)
    requires
        0 <= start <= t.len(),
    ensures
        index_of(t + seq!['\n'] + u, '\n', start) == index_of(t, '\n', start),
    decreases t.len() - start,
{
    let t2 = t + seq!['\n'] + u;
    if start < t.len() {
        assert(t2[start] == t[start]);
        if t[start] != '\n' {
            lemma_index_of_extended(t, u, start + 1);
        }
    } else {
        assert(t2[start] == '\n');
    }
}

proof fn lemma_length_line_extended(t: Seq<char>, u: Seq<char>, start: int)
    requires
        0 <= start <= t.len(),
        length_line_from(t, start) is Some,
    ensures
        length_line_from(t + seq!['\n'] + u, start) == length_line_from(t, start),
    decreases t.len() - start,
{
    let t2 = t + seq!['\n'] + u;
    let e = index_of(t, '\n', start);
    lemma_index_of(t, '\n', start);
    lemma_index_of_extended(t, u, start);
    assert(t2.subrange(start, e) =~= t.subrange(start, e));
    if !is_length_header(t.subrange(start, e)) {
        lemma_length_line_extended(t, u, e + 1);
    }
}

/// Lines added after a request head never change a body length already
/// found in it: the length header that counts is the first one.
pub proof fn law_found_length_kept(text: Seq<char>, more: Seq<char>)
    requires
        content_length_of(text) is Some,
    ensures
        content_length_of(text + seq!['\n'] + more) == content_length_of(text),
{
    let t2 = text + seq!['\n'] + more;
    assert(length_line_from(text, 0) is Some);
    let start = length_line_from(text, 0)->0;
    lemma_length_line_extended(text, more, 0);
    lemma_length_line_start(text, 0);
    let line_end = index_of(text, '\n', start);
    lemma_index_of(text, '\n', start);
    lemma_index_of_extended(text, more, start);
    let value_end = index_of(text.subrange(0, line_end), ':', start + 15);
    assert(0 <= start <= text.len());
    assert(start + 15 <= line_end);
    lemma_index_of(text.subrange(0, line_end), ':', start + 15);
    assert(value_end <= line_end);
    assert(line_end <= text.len());
    assert(t2.subrange(0, line_end) =~= text.subrange(0, line_end));
    assert(t2.subrange(start + 15, value_end) =~= text.subrange(start + 15, value_end));
}

proof fn lemma_length_line_start(t: Seq<char>, start: int)
    requires
        0 <= start <= t.len(),
    ensures
        length_line_from(t, start) matches Some(s) ==> start <= s <= t.len() && is_length_header(
            t.subrange(s, index_of(t, '\n', s)),
        ) && s + 15 <= index_of(t, '\n', s) && index_of(t.subrange(0, index_of(t, '\n', s)), ':', s + 15)
            <= index_of(t, '\n', s),
    decreases t.len() - start,
{
    let e = index_of(t, '\n', start);
    lemma_index_of(t, '\n', start);
    if is_length_header(t.subrange(start, e)) {
        lemma_index_of(t.subrange(0, e), ':', start + 15);
    } else if e < t.len() {
        lemma_length_line_start(t, e + 1);
    }
}

proof fn lemma_encode_concat(a: Seq<char>, b: Seq<char>)
    ensures
        encode_utf8(a + b) == encode_utf8(a) + encode_utf8(b),
    decreases a.len(),
{
    if a.len() > 0 {
        assert((a + b).drop_first() =~= a.drop_first() + b);
        lemma_encode_concat(a.drop_first(), b);
        assert((a + b)[0] == a[0]);
        assert(encode_utf8(a + b) =~= encode_utf8(a) + encode_utf8(b));
    } else {
        assert(a + b =~= b);
        assert(encode_utf8(a) =~= Seq::<u8>::empty());
        assert(encode_utf8(a) + encode_utf8(b) =~= encode_utf8(b));
    }
}

/// The same for the bytes of a request head: appending a line break and
/// more UTF-8 text after a head whose body length was found keeps that
/// length.
pub proof fn law_found_length_kept_in_bytes(head: Seq<u8>, more: Seq<u8>)
    requires
        content_length_of_bytes(head) is Some,
        valid_utf8(more),
    ensures
        content_length_of_bytes(head + seq![10u8] + more) == content_length_of_bytes(head),
{
    broadcast use encode_utf8_valid_utf8, encode_utf8_decode_utf8, decode_utf8_encode_utf8;

    let c1 = decode_utf8(head);
    let c2 = decode_utf8(more);
    let nl = seq!['\n'];
    assert(('\n' as u32) == 10u32);
    assert((10u32 & 0x7Fu32) as u8 == 10u8) by (bit_vector);
    assert(nl.drop_first() =~= Seq::<char>::empty());
    assert(encode_utf8(Seq::<char>::empty()) =~= Seq::<u8>::empty());
    assert(has_width_1_encoding(nl[0] as u32));
    assert(encode_scalar(nl[0] as u32) =~= seq![10u8]);
    assert(encode_utf8(nl) == encode_scalar(nl[0] as u32) + encode_utf8(nl.drop_first()));
    assert(encode_utf8(nl) =~= seq![10u8]);
    lemma_encode_concat(c1, nl);
    lemma_encode_concat(c1 + nl, c2);
    assert(encode_utf8(c1 + nl + c2) == head + seq![10u8] + more);
    law_found_length_kept(c1, c2);
}

/// `GET /` and `GET /index.html` are answered alike: whatever follows the
/// path, both requests are served the page.
pub proof fn law_index_paths_alike(rest: Seq<u8>)
    ensures
        route_of("GET / ".spec_bytes() + rest) == route_of("GET /index.html ".spec_bytes() + rest),
        route_of("GET / ".spec_bytes() + rest) == Ok::<Route, RequestError>(
            Route::Page(GetTarget::Index),
        ),
{
    reveal_strlit("GET ");
    reveal_strlit("GET / ");
    reveal_strlit("GET /index.html ");
    reveal_strlit("/");
    reveal_strlit("/index.html");
    let g = seq![71u8, 69u8, 84u8, 32u8];
    let root = seq![47u8];
    let index = seq![47u8, 105u8, 110u8, 100u8, 101u8, 120u8, 46u8, 104u8, 116u8, 109u8, 108u8];
    lemma_ascii_bytes("GET ", g);
    lemma_ascii_bytes("/", root);
    lemma_ascii_bytes("/index.html", index);
    lemma_ascii_bytes("GET / ", g + root + seq![32u8]);
    lemma_ascii_bytes("GET /index.html ", g + index + seq![32u8]);
    lemma_get_line("GET / ".spec_bytes(), rest, root);
    lemma_get_line("GET /index.html ".spec_bytes(), rest, index);
}

/// The bytes of a text of ASCII characters are their codes.
proof fn lemma_ascii_bytes(s: &str, b: Seq<u8>)
    requires
        s@.len() == b.len(),
        forall|i: int| 0 <= i < b.len() ==> s@[i] as u32 == b[i] as u32 && b[i] < 128,
    ensures
        s.spec_bytes() == b,
{
    assert forall|i: int| 0 <= i < s@.len() implies '\0' <= #[trigger] s@[i] <= '\u{7f}' by {
        let c = s@[i];
        let u = c as u32;
        assert(u == b[i] as u32 && u < 128);
        char_u32_cast(c, u);
        assert((u as char) <= '\u{7f}');
    }
    assert(is_ascii_chars(s@));
    is_ascii_chars_encode_utf8(s@);
    assert forall|i: int| 0 <= i < b.len() implies s.spec_bytes()[i] == b[i] by {
        assert(s@[i] as u8 == encode_utf8(s@)[i]);
    }
    assert(s.spec_bytes() =~= b);
}

/// A request whose line starts with `GET <path> ` is served the target of
/// `path`.
proof fn lemma_get_line(prefix: Seq<u8>, rest: Seq<u8>, path: Seq<u8>)
    requires
        "GET ".spec_bytes() == seq![71u8, 69u8, 84u8, 32u8],
        prefix == "GET ".spec_bytes() + path + seq![32u8],
        forall|k: int| 0 <= k < path.len() ==> path[k] != 10u8 && path[k] != 32u8,
    ensures
        route_of(prefix + rest) == Ok::<Route, RequestError>(Route::Page(target_of_path(path))),
{
    let d = prefix + rest;
    let plen = prefix.len() as int;
    assert forall|k: int| 0 <= k < plen implies d[k] != 10u8 by {
        assert(d[k] == prefix[k]);
        if 4 <= k < 4 + path.len() {
            assert(prefix[k] == path[k - 4]);
        }
    }
    lemma_index_of(d, 10u8, 0);
    let e = index_of(d, 10u8, 0);
    assert(e >= plen);
    assert(first_line_from(d, 0) == Some((0int, e)));
    let line = d.subrange(0, e);
    assert(line.subrange(0, 4) =~= "GET ".spec_bytes());
    assert(starts_with(line, "GET ".spec_bytes()));
    lemma_index_of(line, 32u8, 0);
    let sp = index_of(line, 32u8, 0);
    assert(line[3] == 32u8);
    assert(line[0] != 32u8 && line[1] != 32u8 && line[2] != 32u8);
    assert(sp == 3);
    assert forall|k: int| 4 <= k < 4 + path.len() implies line[k] != 32u8 by {
        assert(line[k] == path[k - 4]);
    }
    assert(line[4 + path.len() as int] == 32u8);
    lemma_index_of(line, 32u8, 4);
    let end = index_of(line, 32u8, 4);
    assert(end == 4 + path.len());
    assert(line.subrange(4, end) =~= path);
    assert(request_path(line) == path);
}

/// `ascii_lower` changes exactly the letters `'A'..='Z'`, each to its small
/// letter, and never gives a capital.
pub proof fn law_ascii_lower(c: char)
    ensures
        !('A' <= ascii_lower(c) <= 'Z'),
        ('A' <= c <= 'Z') ==> ascii_lower(c) as u32 == c as u32 + 32,
        !('A' <= c <= 'Z') ==> ascii_lower(c) == c,
{
}

/// Header names are matched without regard to ASCII case: two lines that
/// agree once lower-cased are both body-length headers or neither is.
pub proof fn law_length_header_ignores_case(a: Seq<char>, b: Seq<char>)
    requires
        a.len() == b.len(),
        forall|k: int| 0 <= k < a.len() ==> ascii_lower(#[trigger] a[k]) == ascii_lower(b[k]),
    ensures
        is_length_header(a) == is_length_header(b),
{
    if is_length_header(a) {
        assert forall|k: int| 0 <= k < 15 implies ascii_lower(#[trigger] b[k])
            == length_header_prefix()[k] by {
            assert(ascii_lower(a[k]) == ascii_lower(b[k]));
        }
    }
    if is_length_header(b) {
        assert forall|k: int| 0 <= k < 15 implies ascii_lower(#[trigger] a[k])
            == length_header_prefix()[k] by {
            assert(ascii_lower(a[k]) == ascii_lower(b[k]));
        }
    }
}

/// A line that starts with `content-length:` in small letters is a
/// body-length header.
pub proof fn law_lowercase_length_header(line: Seq<char>)
    requires
        line.len() >= 15,
        line.subrange(0, 15) == seq!['c', 'o', 'n', 't', 'e', 'n', 't', '-', 'l', 'e', 'n', 'g', 't', 'h', ':'],
    ensures
        is_length_header(line),
{
    assert forall|k: int| 0 <= k < 15 implies ascii_lower(#[trigger] line[k])
        == length_header_prefix()[k] by {
        assert(line[k] == line.subrange(0, 15)[k]);
    }
}

/// A line that differs from `content-length:` at one of its first 15
/// characters in more than ASCII case is no body-length header.
pub proof fn law_other_line_no_length_header(line: Seq<char>, k: int)
    requires
        0 <= k < 15,
        k < line.len(),
        ascii_lower(line[k]) != length_header_prefix()[k],
    ensures
        !is_length_header(line),
{
}

/// Once the bytes received hold `"\r\n\r\n"`, the head is complete, however
/// many bytes follow it and whatever its size: the body starts just after
/// the first such run, which comes no later than any other.
pub proof fn law_head_complete_at_blank_line(buffer: Seq<u8>, i: int)
    requires
        terminator_at(buffer, i),
        buffer.len() <= usize::MAX,
    ensures
        header_progress(buffer) matches Ok(HeaderProgress::Complete { body_start }) && 4
            <= body_start <= i + 4 && terminator_at(buffer, body_start - 4) && forall|j: int|
            0 <= j < body_start - 4 ==> !terminator_at(buffer, j),
{
    lemma_first_terminator(buffer, 0);
    let f = first_terminator_from(buffer, 0)->0;
    assert(f <= i);
    assert(header_progress(buffer) == Ok::<HeaderProgress, HeaderError>(
        HeaderProgress::Complete { body_start: (f + 4) as usize },
    ));
}

/// Without `"\r\n\r\n"` the head is never complete: more bytes are needed
/// up to `MAX_HEADER_SIZE`, and beyond it the head is refused.
pub proof fn law_head_incomplete_without_blank_line(buffer: Seq<u8>)
    requires
        forall|j: int| !terminator_at(buffer, j),
    ensures
        buffer.len() <= MAX_HEADER_SIZE ==> header_progress(buffer) == Ok::<
            HeaderProgress,
            HeaderError,
        >(HeaderProgress::NeedMore),
        buffer.len() > MAX_HEADER_SIZE ==> header_progress(buffer) == Err::<
            HeaderProgress,
            HeaderError,
        >(HeaderError::HeadersTooLarge),
{
    lemma_first_terminator(buffer, 0);
}

} // verus!
