use fileserve::headers::Headers;
use fileserve::http::is_head_complete;
use fileserve::http::HttpRequest;
use fileserve::http::HttpResponse;
use fileserve::http::ParseError;

fn request(method: &[u8], path: &[u8], version: &[u8]) -> HttpRequest {
    HttpRequest { method: method.to_vec(), path: path.to_vec(), http_version: version.to_vec() }
}

#[test]
fn parse_reads_the_three_tokens() {
    assert_eq!(
        HttpRequest::parse(b"GET /index.html HTTP/1.1\r\nHost: localhost\r\n\r\n"),
        Ok(request(b"GET", b"/index.html", b"HTTP/1.1"))
    );
}

#[test]
fn parse_accepts_bare_line_feeds() {
    assert_eq!(
        HttpRequest::parse(b"GET / HTTP/1.0\nHost: x\n\n"),
        Ok(request(b"GET", b"/", b"HTTP/1.0"))
    );
}

#[test]
fn parse_accepts_a_line_without_end() {
    assert_eq!(
        HttpRequest::parse(b"HEAD /a HTTP/1.1"),
        Ok(request(b"HEAD", b"/a", b"HTTP/1.1"))
    );
}

#[test]
fn parse_keeps_a_carriage_return_that_no_line_feed_follows() {
    assert_eq!(
        HttpRequest::parse(b"GET / HTTP/1.1\r"),
        Ok(request(b"GET", b"/", b"HTTP/1.1\r"))
    );
}

#[test]
fn parse_takes_one_carriage_return_only() {
    assert_eq!(
        HttpRequest::parse(b"GET / HTTP/1.1\r\r\n"),
        Ok(request(b"GET", b"/", b"HTTP/1.1\r"))
    );
}

#[test]
fn parse_ignores_tokens_after_the_third() {
    assert_eq!(
        HttpRequest::parse(b"GET /a b HTTP/1.1\r\n\r\n"),
        Ok(request(b"GET", b"/a", b"b"))
    );
}

#[test]
fn parse_ignores_the_lines_after_the_first() {
    assert_eq!(
        HttpRequest::parse(b"GET /x HTTP/1.1\r\nPOST /y HTTP/1.0\r\n\r\nbody"),
        Ok(request(b"GET", b"/x", b"HTTP/1.1"))
    );
}

#[test]
fn parse_splits_at_every_single_space() {
    assert_eq!(
        HttpRequest::parse(b"GET  / HTTP/1.1\r\n"),
        Ok(request(b"GET", b"", b"/"))
    );
}

#[test]
fn parse_of_nothing_is_no_request() {
    assert_eq!(HttpRequest::parse(b""), Err(ParseError::NoRequest));
}

#[test]
fn parse_of_an_empty_first_line_is_no_request() {
    assert_eq!(HttpRequest::parse(b"\r\n"), Err(ParseError::NoRequest));
    assert_eq!(HttpRequest::parse(b"\n"), Err(ParseError::NoRequest));
    assert_eq!(
        HttpRequest::parse(b"\r\nGET / HTTP/1.1\r\n\r\n"),
        Err(ParseError::NoRequest)
    );
}

#[test]
fn parse_of_too_few_tokens_is_malformed() {
    assert_eq!(HttpRequest::parse(b"GET\r\n\r\n"), Err(ParseError::Malformed));
    assert_eq!(HttpRequest::parse(b"GET /\r\n\r\n"), Err(ParseError::Malformed));
    assert_eq!(HttpRequest::parse(b"GET /index.html"), Err(ParseError::Malformed));
    assert_eq!(HttpRequest::parse(b"\r"), Err(ParseError::Malformed));
}

#[test]
fn parse_does_not_need_utf8() {
    assert_eq!(
        HttpRequest::parse(b"GET /\xff\xfe HTTP/1.1\r\n\r\n"),
        Ok(request(b"GET", b"/\xff\xfe", b"HTTP/1.1"))
    );
}

#[test]
fn head_is_complete_at_the_first_empty_line() {
    assert!(is_head_complete(b"GET / HTTP/1.1\r\n\r\n"));
    assert!(is_head_complete(b"GET / HTTP/1.1\r\nHost: x\r\n\r\n"));
    assert!(is_head_complete(b"GET / HTTP/1.1\n\n"));
    assert!(is_head_complete(b"GET / HTTP/1.1\r\n\r\nbody"));
    assert!(is_head_complete(b"\r\n"));
    assert!(is_head_complete(b"\n"));
}

#[test]
fn head_is_not_complete_before_an_empty_line() {
    assert!(!is_head_complete(b""));
    assert!(!is_head_complete(b"GET / HTTP/1.1"));
    assert!(!is_head_complete(b"GET / HTTP/1.1\r\n"));
    assert!(!is_head_complete(b"GET / HTTP/1.1\r\nHost: x\r\n"));
    assert!(!is_head_complete(b"GET / HTTP/1.1\r\n\r"));
    assert!(!is_head_complete(b"\r"));
}

#[test]
fn new_response_is_an_empty_ok() {
    let response = HttpResponse::new();
    assert_eq!(response.status_code, 200);
    assert_eq!(response.status_text, b"OK".to_vec());
    assert_eq!(response.headers, Headers::new());
    assert_eq!(response.headers.len(), 0);
    assert_eq!(response.content, Vec::<u8>::new());
}

#[test]
fn new_response_on_the_wire() {
    assert_eq!(HttpResponse::new().to_text(), b"HTTP/1.1 200 200\r\n\r\n\r\n\r\n".to_vec());
}

#[test]
fn status_line_repeats_the_code() {
    let mut response = HttpResponse::new();
    response.status_code = 400;
    response.status_text = b"BAD REQUEST".to_vec();
    let text = response.to_text();
    let line: Vec<u8> = text.split(|b| *b == b'\n').next().unwrap().to_vec();
    assert_eq!(line, b"HTTP/1.1 400 400\r".to_vec());
    let tokens: Vec<&[u8]> = line.split(|b| *b == b' ').collect();
    assert_eq!(tokens[1], b"400");
}

#[test]
fn status_text_is_not_sent() {
    let mut response = HttpResponse::new();
    response.status_code = 404;
    response.status_text = b"NOT FOUND".to_vec();
    assert_eq!(response.to_text(), b"HTTP/1.1 404 404\r\n\r\n\r\n\r\n".to_vec());
}

#[test]
fn negative_status_code_keeps_its_sign() {
    let mut response = HttpResponse::new();
    response.status_code = -1;
    assert_eq!(response.to_text(), b"HTTP/1.1 -1 -1\r\n\r\n\r\n\r\n".to_vec());
}

#[test]
fn serialized_response_has_each_part_once() {
    let mut response = HttpResponse::new();
    response.headers.insert(b"Content-Type".to_vec(), b"text/plain".to_vec());
    response.headers.insert(b"Content-Length".to_vec(), b"5".to_vec());
    response.content = b"hello".to_vec();
    let text = response.to_text();
    assert_eq!(
        text,
        b"HTTP/1.1 200 200\r\nContent-Type: text/plain\r\nContent-Length: 5\r\n\r\nhello\r\n\r\n"
            .to_vec()
    );
    let as_text = String::from_utf8(text).unwrap();
    assert!(as_text.starts_with("HTTP/1.1 200 200\r\n"));
    assert_eq!(as_text.matches("Content-Type: text/plain\r\n").count(), 1);
    assert_eq!(as_text.matches("Content-Length: 5\r\n").count(), 1);
    let (head, rest) = as_text.split_once("\r\n\r\n").unwrap();
    assert_eq!(head.lines().count(), 3);
    assert_eq!(rest, "hello\r\n\r\n");
}

#[test]
fn body_goes_out_byte_for_byte() {
    let mut response = HttpResponse::new();
    response.content = vec![0, 159, 146, 150, 13, 10, 255];
    let text = response.to_text();
    let head = b"HTTP/1.1 200 200\r\n\r\n";
    assert_eq!(&text[..head.len()], head);
    assert_eq!(&text[head.len()..head.len() + 7], &[0, 159, 146, 150, 13, 10, 255]);
    assert_eq!(&text[head.len() + 7..], b"\r\n\r\n");
}
