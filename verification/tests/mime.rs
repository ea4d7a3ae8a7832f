use fileserve::mime::extension;
use fileserve::mime::find_mime_type;
use fileserve::mime::mime_for_extension;
use fileserve::path::ResolvedPath;

#[test]
fn every_known_extension_has_its_type() {
    assert_eq!(mime_for_extension(b"css"), "text/css");
    assert_eq!(mime_for_extension(b"js"), "text/javascript");
    assert_eq!(mime_for_extension(b"jpeg"), "image/jpeg");
    assert_eq!(mime_for_extension(b"png"), "image/png");
    assert_eq!(mime_for_extension(b"svg"), "image/svg+xml");
    assert_eq!(mime_for_extension(b"wasm"), "application/wasm");
    assert_eq!(mime_for_extension(b"html"), "text/html");
}

#[test]
fn unknown_extensions_are_octet_streams() {
    assert_eq!(mime_for_extension(b""), "application/octet-stream");
    assert_eq!(mime_for_extension(b"txt"), "application/octet-stream");
    assert_eq!(mime_for_extension(b"jpg"), "application/octet-stream");
    assert_eq!(mime_for_extension(b"htm"), "application/octet-stream");
    assert_eq!(mime_for_extension(b"html5"), "application/octet-stream");
}

#[test]
fn extensions_are_matched_byte_for_byte() {
    assert_eq!(mime_for_extension(b"CSS"), "application/octet-stream");
    assert_eq!(mime_for_extension(b"Html"), "application/octet-stream");
    assert_eq!(mime_for_extension(b" css"), "application/octet-stream");
}

#[test]
fn extension_is_what_follows_the_last_dot() {
    assert_eq!(extension(b"site.css"), Some(&b"css"[..]));
    assert_eq!(extension(b"site.min.css"), Some(&b"css"[..]));
    assert_eq!(extension(b"a.b"), Some(&b"b"[..]));
}

#[test]
fn extension_may_be_empty() {
    assert_eq!(extension(b"archive."), Some(&b""[..]));
}

#[test]
fn names_without_a_dot_have_no_extension() {
    assert_eq!(extension(b"README"), None);
    assert_eq!(extension(b""), None);
}

#[test]
fn a_leading_dot_starts_no_extension() {
    assert_eq!(extension(b".profile"), None);
    assert_eq!(extension(b"."), None);
    assert_eq!(extension(b".config.js"), Some(&b"js"[..]));
}

#[test]
fn extension_agrees_with_std_paths() {
    let names = ["a.html", "a", ".a", "a.", "a.b.c", "..a", "wasm", "x.wasm"];
    for name in names {
        let expected = std::path::Path::new(name)
            .extension()
            .map(|e| e.to_str().unwrap().as_bytes().to_vec());
        assert_eq!(extension(name.as_bytes()).map(|e| e.to_vec()), expected);
    }
}

#[test]
fn mime_type_goes_by_the_last_name() {
    let path = ResolvedPath::resolve(b"/assets/app.js").unwrap();
    assert_eq!(find_mime_type(&path), "text/javascript");
    let path = ResolvedPath::resolve(b"/pic.png/notes").unwrap();
    assert_eq!(find_mime_type(&path), "application/octet-stream");
    let path = ResolvedPath::resolve(b"/index.html").unwrap();
    assert_eq!(find_mime_type(&path), "text/html");
}

#[test]
fn mime_type_of_the_served_directory_is_octet_stream() {
    let path = ResolvedPath::resolve(b"/").unwrap();
    assert_eq!(find_mime_type(&path), "application/octet-stream");
}

#[test]
fn mime_type_of_hidden_files_is_octet_stream() {
    let path = ResolvedPath::resolve(b"/.css").unwrap();
    assert_eq!(find_mime_type(&path), "application/octet-stream");
}
