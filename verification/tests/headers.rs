use fileserve::headers::Headers;

#[test]
fn new_headers_are_empty() {
    let headers = Headers::new();
    assert_eq!(headers.len(), 0);
    assert_eq!(headers.get(b"Content-Type"), None);
}

#[test]
fn inserted_value_can_be_read_back() {
    let mut headers = Headers::new();
    let previous = headers.insert(b"Content-Type".to_vec(), b"text/html".to_vec());
    assert_eq!(previous, None);
    assert_eq!(headers.len(), 1);
    assert_eq!(headers.get(b"Content-Type"), Some(&b"text/html"[..]));
}

#[test]
fn insert_returns_the_value_it_replaces() {
    let mut headers = Headers::new();
    headers.insert(b"Content-Type".to_vec(), b"text/html".to_vec());
    let previous = headers.insert(b"Content-Type".to_vec(), b"text/css".to_vec());
    assert_eq!(previous, Some(b"text/html".to_vec()));
    assert_eq!(headers.len(), 1);
    assert_eq!(headers.get(b"Content-Type"), Some(&b"text/css"[..]));
}

#[test]
fn other_names_keep_their_values() {
    let mut headers = Headers::new();
    headers.insert(b"Content-Length".to_vec(), b"5".to_vec());
    headers.insert(b"Content-Type".to_vec(), b"text/plain".to_vec());
    headers.insert(b"Content-Length".to_vec(), b"7".to_vec());
    assert_eq!(headers.len(), 2);
    assert_eq!(headers.get(b"Content-Length"), Some(&b"7"[..]));
    assert_eq!(headers.get(b"Content-Type"), Some(&b"text/plain"[..]));
}

#[test]
fn names_are_matched_byte_for_byte() {
    let mut headers = Headers::new();
    headers.insert(b"Content-Type".to_vec(), b"text/html".to_vec());
    assert_eq!(headers.get(b"content-type"), None);
    headers.insert(b"content-type".to_vec(), b"text/css".to_vec());
    assert_eq!(headers.len(), 2);
}

#[test]
fn headers_are_written_in_the_order_given() {
    let mut headers = Headers::new();
    headers.insert(b"Content-Length".to_vec(), b"5".to_vec());
    headers.insert(b"Content-Type".to_vec(), b"text/plain".to_vec());
    let mut out = Vec::new();
    headers.write_to(&mut out);
    assert_eq!(out, b"Content-Length: 5\r\nContent-Type: text/plain\r\n".to_vec());
}

#[test]
fn a_replaced_header_keeps_its_place() {
    let mut headers = Headers::new();
    headers.insert(b"A".to_vec(), b"1".to_vec());
    headers.insert(b"B".to_vec(), b"2".to_vec());
    headers.insert(b"A".to_vec(), b"3".to_vec());
    let mut out = b"x".to_vec();
    headers.write_to(&mut out);
    assert_eq!(out, b"xA: 3\r\nB: 2\r\n".to_vec());
}

#[test]
fn no_headers_write_nothing() {
    let mut out = b"HTTP/1.1 200 200\r\n".to_vec();
    Headers::new().write_to(&mut out);
    assert_eq!(out, b"HTTP/1.1 200 200\r\n".to_vec());
}
