use fileserve::headers::Headers;
use fileserve::http::HttpRequest;
use fileserve::path::ResolvedPath;
use fileserve::respond::describe_content;
use fileserve::respond::handle_http_request;
use fileserve::respond::not_found;
use fileserve::respond::render_listing;
use fileserve::respond::server_error;
use fileserve::respond::FileMetadata;
use fileserve::respond::Pages;
use fileserve::respond::ResolvedTarget;

fn pages() -> Pages {
    Pages {
        not_found: b"<h1>404</h1>".to_vec(),
        folder_view: b"<ul>{dir_list}</ul>".to_vec(),
    }
}

fn get(path: &[u8]) -> HttpRequest {
    HttpRequest { method: b"GET".to_vec(), path: path.to_vec(), http_version: b"HTTP/1.1".to_vec() }
}

fn respond(path: &[u8], target: ResolvedTarget) -> fileserve::http::HttpResponse {
    let resolved = ResolvedPath::resolve(path).unwrap();
    handle_http_request(&get(path), &resolved, target, &pages())
}

#[test]
fn content_headers_give_length_and_type() {
    let headers = describe_content(1234, "image/png");
    assert_eq!(headers.len(), 2);
    assert_eq!(headers.get(b"Content-Length"), Some(&b"1234"[..]));
    assert_eq!(headers.get(b"Content-Type"), Some(&b"image/png"[..]));
    let mut out = Vec::new();
    headers.write_to(&mut out);
    assert_eq!(out, b"Content-Length: 1234\r\nContent-Type: image/png\r\n".to_vec());
}

#[test]
fn content_headers_of_an_empty_body() {
    let headers = describe_content(0, "text/html");
    assert_eq!(headers.get(b"Content-Length"), Some(&b"0"[..]));
}

#[test]
fn file_metadata_has_type_and_size() {
    let path = ResolvedPath::resolve(b"/img/logo.svg").unwrap();
    let metadata = FileMetadata::describe(&path, b"<svg/>");
    assert_eq!(metadata, FileMetadata { content_type: "image/svg+xml", size: 6 });
}

#[test]
fn listing_has_one_item_per_child() {
    let children = vec![b"a.txt".to_vec(), b"sub".to_vec()];
    assert_eq!(
        render_listing(b"/docs", &children),
        b"<li><a href=\"/docs/a.txt\">a.txt</a></li><li><a href=\"/docs/sub\">sub</a></li>"
            .to_vec()
    );
}

#[test]
fn listing_of_no_children_is_empty() {
    assert_eq!(render_listing(b"/docs", &vec![]), Vec::<u8>::new());
}

#[test]
fn listing_links_go_below_the_request_path_as_it_came() {
    assert_eq!(
        render_listing(b"/", &vec![b"x".to_vec()]),
        b"<li><a href=\"//x\">x</a></li>".to_vec()
    );
    assert_eq!(
        render_listing(b"/d/", &vec![b"x".to_vec()]),
        b"<li><a href=\"/d//x\">x</a></li>".to_vec()
    );
}

#[test]
fn server_error_is_a_bare_500() {
    let response = server_error();
    assert_eq!(response.status_code, 500);
    assert_eq!(response.status_text, b"INTERNAL SERVER ERROR".to_vec());
    assert_eq!(response.headers, Headers::new());
    assert_eq!(response.content, Vec::<u8>::new());
    assert_eq!(response.to_text(), b"HTTP/1.1 500 500\r\n\r\n\r\n\r\n".to_vec());
}

#[test]
fn not_found_carries_the_page() {
    let response = not_found(b"<h1>404</h1>");
    assert_eq!(response.status_code, 404);
    assert_eq!(response.status_text, b"NOT FOUND".to_vec());
    assert_eq!(response.content, b"<h1>404</h1>".to_vec());
    assert_eq!(response.headers.get(b"Content-Length"), Some(&b"12"[..]));
    assert_eq!(response.headers.get(b"Content-Type"), Some(&b"text/html"[..]));
}

#[test]
fn missing_target_is_not_found() {
    let response = respond(b"/nope.css", ResolvedTarget::Missing);
    assert_eq!(response, not_found(b"<h1>404</h1>"));
    assert_eq!(response.status_code, 404);
    assert_eq!(response.content, b"<h1>404</h1>".to_vec());
    assert_eq!(
        response.to_text(),
        b"HTTP/1.1 404 404\r\nContent-Length: 12\r\nContent-Type: text/html\r\n\r\n<h1>404</h1>\r\n\r\n"
            .to_vec()
    );
}

#[test]
fn file_target_is_served_with_its_type() {
    let response = respond(b"/css/site.css", ResolvedTarget::File(b"body{}".to_vec()));
    assert_eq!(response.status_code, 200);
    assert_eq!(response.status_text, b"OK".to_vec());
    assert_eq!(response.content, b"body{}".to_vec());
    assert_eq!(response.headers.len(), 2);
    assert_eq!(response.headers.get(b"Content-Length"), Some(&b"6"[..]));
    assert_eq!(response.headers.get(b"Content-Type"), Some(&b"text/css"[..]));
}

#[test]
fn file_of_unknown_type_is_an_octet_stream() {
    let response = respond(b"/data.bin", ResolvedTarget::File(vec![0, 255, 7]));
    assert_eq!(response.content, vec![0, 255, 7]);
    assert_eq!(response.headers.get(b"Content-Length"), Some(&b"3"[..]));
    assert_eq!(
        response.headers.get(b"Content-Type"),
        Some(&b"application/octet-stream"[..])
    );
}

#[test]
fn empty_file_has_length_zero() {
    let response = respond(b"/empty.html", ResolvedTarget::File(vec![]));
    assert_eq!(response.status_code, 200);
    assert_eq!(response.headers.get(b"Content-Length"), Some(&b"0"[..]));
    assert_eq!(response.headers.get(b"Content-Type"), Some(&b"text/html"[..]));
}

#[test]
fn file_type_goes_by_the_resolved_path() {
    let response = respond(b"/a/./pic.png/", ResolvedTarget::File(vec![1]));
    assert_eq!(response.headers.get(b"Content-Type"), Some(&b"image/png"[..]));
}

#[test]
fn directory_target_is_listed() {
    let children = vec![b"a.txt".to_vec(), b"b".to_vec(), b"c.html".to_vec()];
    let response = respond(b"/docs", ResolvedTarget::Directory(children.clone()));
    assert_eq!(response.status_code, 200);
    assert_eq!(response.status_text, b"OK".to_vec());
    assert_eq!(response.headers.get(b"Content-Type"), Some(&b"text/html"[..]));
    let body = String::from_utf8(response.content.clone()).unwrap();
    assert_eq!(
        body,
        "<ul><li><a href=\"/docs/a.txt\">a.txt</a></li><li><a href=\"/docs/b\">b</a></li>\
         <li><a href=\"/docs/c.html\">c.html</a></li></ul>"
    );
    assert_eq!(body.matches("<li>").count(), children.len());
    let length = response.content.len().to_string();
    assert_eq!(response.headers.get(b"Content-Length"), Some(length.as_bytes()));
}

#[test]
fn empty_directory_has_an_empty_list() {
    let response = respond(b"/", ResolvedTarget::Directory(vec![]));
    assert_eq!(response.status_code, 200);
    assert_eq!(response.content, b"<ul></ul>".to_vec());
    assert_eq!(response.headers.get(b"Content-Length"), Some(&b"9"[..]));
}

#[test]
fn directory_page_without_placeholder_is_sent_as_it_is() {
    let pages = Pages { not_found: vec![], folder_view: b"<p>listing off</p>".to_vec() };
    let path = ResolvedPath::resolve(b"/").unwrap();
    let response = handle_http_request(
        &get(b"/"),
        &path,
        ResolvedTarget::Directory(vec![b"x".to_vec()]),
        &pages,
    );
    assert_eq!(response.content, b"<p>listing off</p>".to_vec());
}

#[test]
fn unreadable_target_is_a_bare_404() {
    let response = respond(b"/secret.html", ResolvedTarget::Unreadable);
    assert_eq!(response.status_code, 404);
    assert_eq!(response.status_text, b"NOT FOUND".to_vec());
    assert_eq!(response.headers.len(), 0);
    assert_eq!(response.content, Vec::<u8>::new());
    assert_eq!(response.to_text(), b"HTTP/1.1 404 404\r\n\r\n\r\n\r\n".to_vec());
}

#[test]
fn a_body_always_comes_with_its_length() {
    let targets = vec![
        ResolvedTarget::Missing,
        ResolvedTarget::Directory(vec![b"x".to_vec()]),
        ResolvedTarget::File(b"abc".to_vec()),
        ResolvedTarget::Unreadable,
    ];
    for target in targets {
        let response = respond(b"/x", target);
        if !response.content.is_empty() {
            let length = response.content.len().to_string();
            assert_eq!(response.headers.get(b"Content-Length"), Some(length.as_bytes()));
        }
    }
}
