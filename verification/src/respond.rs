//! The response for what a request path points at.
//!
//! The caller looks the path up and reports one of four findings: nothing
//! is there, a directory with these children, a file with these bytes, or
//! something that could not be read. Each finding has its response; a
//! failed read is answered like a missing entry and never as a server error,
//! so a client cannot tell what it may not read from what does not exist.

use vstd::prelude::*;
use vstd::slice::slice_to_vec;
use vstd::string::StringSliceAdditionalSpecFns;
use vstd::utf8::encode_utf8;
use vstd::utf8::is_ascii_chars_encode_utf8;
use crate::headers::has_name;
use crate::headers::inserted;
use crate::headers::lemma_value_at;
use crate::headers::names_distinct;
use crate::headers::value_of;
use crate::headers::Entry;
use crate::headers::Headers;
use crate::http::HttpRequest;
use crate::http::HttpResponse;
use crate::http::ResponseView;
use crate::mime::find_mime_type;
use crate::mime::mime_type_of;
use crate::path::ResolvedPath;
use crate::text::append;
use crate::text::decimal;
use crate::text::decimal_bytes;
use crate::text::lemma_replaced_holds_replacement;
use crate::text::occurs_in;
use crate::text::replace_all;
use crate::text::replaced;
use crate::text::views;
use crate::text::SLASH;

verus! {

/// What was found where a resolved path points.
#[derive(Clone, Debug, PartialEq, Eq)]
pub enum ResolvedTarget {
    /// Nothing is there.
    Missing,
    /// A directory, with the names of its direct children.
    Directory(Vec<Vec<u8>>),
    /// A regular file, with its bytes.
    File(Vec<u8>),
    /// Something is there, but its contents could not be read.
    Unreadable,
}

/// A finding as it is spoken of in contracts.
pub enum TargetView {
    Missing,
    Directory(Seq<Seq<u8>>),
    File(Seq<u8>),
    Unreadable,
}

impl View for ResolvedTarget {
    type V = TargetView;

    open spec fn view(&self) -> TargetView {
        match self {
            ResolvedTarget::Missing => TargetView::Missing,
            ResolvedTarget::Directory(children) => TargetView::Directory(views(children@)),
            ResolvedTarget::File(contents) => TargetView::File(contents@),
            ResolvedTarget::Unreadable => TargetView::Unreadable,
        }
    }
}

/// The two documents that a server is set up with: the page sent when
/// nothing is found, and the page for a directory, in which every
/// `{dir_list}` stands for the list of the directory's children.
#[derive(Clone, Debug, PartialEq, Eq)]
pub struct Pages {
    pub not_found: Vec<u8>,
    pub folder_view: Vec<u8>,
}

/// The documents as they are spoken of in contracts.
pub struct PagesView {
    pub not_found: Seq<u8>,
    pub folder_view: Seq<u8>,
}

impl View for Pages {
    type V = PagesView;

    open spec fn view(&self) -> PagesView {
        PagesView { not_found: self.not_found@, folder_view: self.folder_view@ }
    }
}

/// What is known of a file that was read: its media type and its size in
/// bytes.
#[derive(Clone, Copy, Debug, PartialEq, Eq)]
pub struct FileMetadata {
    pub content_type: &'static str,
    pub size: usize,
}

impl FileMetadata {
    /// The metadata of the file at `path` with the bytes `contents`.
    pub fn describe(path: &ResolvedPath, contents: &[u8]) -> (metadata: FileMetadata)
        ensures
            metadata.content_type@ == mime_type_of(path@),
            metadata.size == contents@.len(),
    {
        FileMetadata { content_type: find_mime_type(path), size: contents.len() }
    }
}

/// The token in the directory page that the list of children replaces.
pub open spec fn placeholder() -> Seq<u8> {
    "{dir_list}".spec_bytes()
}

/// One child of a directory as a list item: a link to the child below the
/// request path, labelled with the child's name.
pub open spec fn list_item(request_path: Seq<u8>, child: Seq<u8>) -> Seq<u8> {
    "<li><a href=\"".spec_bytes() + request_path + seq![SLASH] + child + "\">".spec_bytes() + child
        + "</a></li>".spec_bytes()
}

/// The list items of all children, one after the other in the order given.
pub open spec fn listing(request_path: Seq<u8>, children: Seq<Seq<u8>>) -> Seq<u8> {
    children.map_values(|child: Seq<u8>| list_item(request_path, child)).flatten()
}

/// The two headers that describe a body.
pub open spec fn content_headers(length: nat, content_type: Seq<char>) -> Seq<Entry> {
    seq![
        ("Content-Length".spec_bytes(), decimal(length)),
        ("Content-Type".spec_bytes(), encode_utf8(content_type)),
    ]
}

/// The answer to a request that cannot be read: status 500, no headers, no
/// body.
pub open spec fn server_error_response() -> ResponseView {
    ResponseView {
        status_code: 500,
        status_text: "INTERNAL SERVER ERROR".spec_bytes(),
        headers: Seq::<Entry>::empty(),
        content: Seq::<u8>::empty(),
    }
}

/// The answer where nothing is found: status 404 with the not-found page
/// as an HTML body.
pub open spec fn not_found_response(page: Seq<u8>) -> ResponseView {
    ResponseView {
        status_code: 404,
        status_text: "NOT FOUND".spec_bytes(),
        headers: content_headers(page.len(), "text/html"@),
        content: page,
    }
}

/// The answer where reading failed: status 404, no headers, no body.
pub open spec fn unreadable_response() -> ResponseView {
    ResponseView {
        status_code: 404,
        status_text: "NOT FOUND".spec_bytes(),
        headers: Seq::<Entry>::empty(),
        content: Seq::<u8>::empty(),
    }
}

/// The answer for a directory: status 200 with the directory page, in which
/// the list of children has taken the placeholder's place.
pub open spec fn directory_response(
    template: Seq<u8>,
    request_path: Seq<u8>,
    children: Seq<Seq<u8>>,
) -> ResponseView {
    let page = replaced(template, placeholder(), listing(request_path, children));
    ResponseView {
        status_code: 200,
        status_text: "OK".spec_bytes(),
        headers: content_headers(page.len(), "text/html"@),
        content: page,
    }
}

/// The answer for a file: status 200 with the file's bytes and the media
/// type that goes with the last name of its path.
pub open spec fn file_response(path: Seq<Seq<u8>>, contents: Seq<u8>) -> ResponseView {
    ResponseView {
        status_code: 200,
        status_text: "OK".spec_bytes(),
        headers: content_headers(contents.len(), mime_type_of(path)),
        content: contents,
    }
}

/// The answer to a request for `request_path`, which resolves to `path`,
/// where `target` was found.
pub open spec fn response_for(
    request_path: Seq<u8>,
    path: Seq<Seq<u8>>,
    target: TargetView,
    pages: PagesView,
) -> ResponseView {
    match target {
        TargetView::Missing => not_found_response(pages.not_found),
        TargetView::Directory(children) => directory_response(
            pages.folder_view,
            request_path,
            children,
        ),
        TargetView::File(contents) => file_response(path, contents),
        TargetView::Unreadable => unreadable_response(),
    }
}

/// The two header names differ, so each keeps its own value.
proof fn lemma_content_header_names()
    ensures
        "Content-Length".spec_bytes().len() == 14,
        "Content-Type".spec_bytes().len() == 12,
{
    reveal_strlit("Content-Length");
    reveal_strlit("Content-Type");
    is_ascii_chars_encode_utf8("Content-Length"@);
    is_ascii_chars_encode_utf8("Content-Type"@);
}

/// The headers for a body of `length` bytes of the given media type.
pub fn describe_content(length: usize, content_type: &str) -> (headers: Headers)
    ensures
        headers@ == content_headers(length as nat, content_type@),
{
    let mut headers = Headers::new();
    headers.insert(slice_to_vec("Content-Length".as_bytes()), decimal_bytes(length as u64));
    headers.insert(slice_to_vec("Content-Type".as_bytes()), slice_to_vec(content_type.as_bytes()));
    proof {
        lemma_content_header_names();
        let first = ("Content-Length".spec_bytes(), decimal(length as nat));
        let one = seq![first];
        assert(inserted(Seq::<Entry>::empty(), first.0, first.1) == one);
        assert(!has_name(one, "Content-Type".spec_bytes())) by {
            if has_name(one, "Content-Type".spec_bytes()) {
                let i = choose|i: int|
                    0 <= i < one.len() && (#[trigger] one[i]).0 == "Content-Type".spec_bytes();
                assert(one[i].0 == first.0);
            }
        }
        assert(headers@ == content_headers(length as nat, content_type@));
    }
    headers
}

/// The list items for the children of a directory.
pub fn render_listing(request_path: &[u8], children: &Vec<Vec<u8>>) -> (markup: Vec<u8>)
    ensures
        markup@ == listing(request_path@, views(children@)),
{
    let ghost names = views(children@);
    let ghost items = names.map_values(|child: Seq<u8>| list_item(request_path@, child));
    let mut markup: Vec<u8> = Vec::new();
    let mut i: usize = 0;
    proof {
        assert(items.take(0) == Seq::<Seq<u8>>::empty());
    }
    while i < children.len()
        invariant
            i <= children.len(),
            names == views(children@),
            items == names.map_values(|child: Seq<u8>| list_item(request_path@, child)),
            markup@ == items.take(i as int).flatten(),
        decreases children.len() - i,
    {
        let child = children[i].as_slice();
        let ghost start = markup@;
        append(&mut markup, "<li><a href=\"".as_bytes());
        append(&mut markup, request_path);
        markup.push(SLASH);
        append(&mut markup, child);
        append(&mut markup, "\">".as_bytes());
        append(&mut markup, child);
        append(&mut markup, "</a></li>".as_bytes());
        proof {
            assert(child@ == names[i as int]);
            assert(markup@ == start + list_item(request_path@, names[i as int]));
            assert(items[i as int] == list_item(request_path@, names[i as int]));
            assert(items.take(i + 1) == items.take(i as int).push(items[i as int]));
            items.take(i as int).lemma_flatten_push(items[i as int]);
        }
        i += 1;
    }
    proof {
        assert(items.take(children.len() as int) == items);
    }
    markup
}

/// The answer to a request that cannot be read.
pub fn server_error() -> (response: HttpResponse)
    ensures
        response@ == server_error_response(),
{
    HttpResponse {
        status_code: 500,
        status_text: slice_to_vec("INTERNAL SERVER ERROR".as_bytes()),
        headers: Headers::new(),
        content: Vec::new(),
    }
}

/// The answer where nothing is found, with `page` as its body.
pub fn not_found(page: &[u8]) -> (response: HttpResponse)
    ensures
        response@ == not_found_response(page@),
{
    HttpResponse {
        status_code: 404,
        status_text: slice_to_vec("NOT FOUND".as_bytes()),
        headers: describe_content(page.len(), "text/html"),
        content: slice_to_vec(page),
    }
}

/// Builds the response to `request`, whose path resolves to `path`, from
/// what was found there.
pub fn handle_http_request(
    request: &HttpRequest,
    path: &ResolvedPath,
    target: ResolvedTarget,
    pages: &Pages,
) -> (response: HttpResponse)
    ensures
        response@ == response_for(request@.path, path@, target@, pages@),
{
    match target {
        ResolvedTarget::Missing => not_found(pages.not_found.as_slice()),
        ResolvedTarget::Directory(children) => {
            let markup = render_listing(request.path.as_slice(), &children);
            let page = replace_all(
                pages.folder_view.as_slice(),
                "{dir_list}".as_bytes(),
                markup.as_slice(),
            );
            let mut response = HttpResponse::new();
            response.headers = describe_content(page.len(), "text/html");
            response.content = page;
            response
        },
        ResolvedTarget::File(contents) => {
            let metadata = FileMetadata::describe(path, contents.as_slice());
            let mut response = HttpResponse::new();
            response.headers = describe_content(metadata.size, metadata.content_type);
            response.content = contents;
            response
        },
        ResolvedTarget::Unreadable => {
            let mut response = HttpResponse::new();
            response.status_code = 404;
            response.status_text = slice_to_vec("NOT FOUND".as_bytes());
            response
        },
    }
}

/// Nothing found: the status is 404 and the body is the not-found page,
/// whatever was asked for.
pub proof fn lemma_missing_is_not_found(
    request_path: Seq<u8>,
    path: Seq<Seq<u8>>,
    pages: PagesView,
)
    ensures
        response_for(request_path, path, TargetView::Missing, pages).status_code == 404,
        response_for(request_path, path, TargetView::Missing, pages).content == pages.not_found,
{
}

/// A directory: the status is 200, the media type is `text/html`, the list
/// in the body is made of exactly one item per child, in the order of the
/// children, and where the directory page holds the placeholder, the body
/// holds that list.
pub proof fn lemma_directory_is_listed(
    request_path: Seq<u8>,
    path: Seq<Seq<u8>>,
    children: Seq<Seq<u8>>,
    pages: PagesView,
)
    ensures
        ({
            let response = response_for(request_path, path, TargetView::Directory(children), pages);
            let items = Seq::new(children.len(), |i: int| list_item(request_path, children[i]));
            &&& response.status_code == 200
            &&& value_of(response.headers, "Content-Type".spec_bytes()) == Some(
                "text/html".spec_bytes(),
            )
            &&& items.len() == children.len()
            &&& listing(request_path, children) == items.flatten()
            &&& response.content == replaced(
                pages.folder_view,
                placeholder(),
                listing(request_path, children),
            )
            &&& occurs_in(placeholder(), pages.folder_view) ==> occurs_in(
                listing(request_path, children),
                response.content,
            )
        }),
{
    let response = response_for(request_path, path, TargetView::Directory(children), pages);
    let items = Seq::new(children.len(), |i: int| list_item(request_path, children[i]));
    assert(children.map_values(|child: Seq<u8>| list_item(request_path, child)) == items);
    lemma_content_headers_values(response.content.len(), "text/html"@);
    if occurs_in(placeholder(), pages.folder_view) {
        reveal_strlit("{dir_list}");
        is_ascii_chars_encode_utf8("{dir_list}"@);
        lemma_replaced_holds_replacement(
            pages.folder_view,
            placeholder(),
            listing(request_path, children),
        );
    }
}

/// The two content headers can be read back: the length in decimal and the
/// media type.
pub proof fn lemma_content_headers_values(length: nat, content_type: Seq<char>)
    ensures
        names_distinct(content_headers(length, content_type)),
        value_of(content_headers(length, content_type), "Content-Length".spec_bytes()) == Some(
            decimal(length),
        ),
        value_of(content_headers(length, content_type), "Content-Type".spec_bytes()) == Some(
            encode_utf8(content_type),
        ),
{
    lemma_content_header_names();
    let headers = content_headers(length, content_type);
    assert(headers[0].0 == "Content-Length".spec_bytes());
    assert(headers[1].0 == "Content-Type".spec_bytes());
    assert(names_distinct(headers));
    lemma_value_at(headers, 0);
    lemma_value_at(headers, 1);
}

/// A body that is not empty comes with its length: whatever was found, if
/// the response has a body, its `Content-Length` header is the body's length
/// in decimal.
pub proof fn lemma_content_length_matches_body(
    request_path: Seq<u8>,
    path: Seq<Seq<u8>>,
    target: TargetView,
    pages: PagesView,
)
    ensures
        ({
            let response = response_for(request_path, path, target, pages);
            response.content.len() > 0 ==> value_of(
                response.headers,
                "Content-Length".spec_bytes(),
            ) == Some(decimal(response.content.len()))
        }),
{
    let response = response_for(request_path, path, target, pages);
    match target {
        TargetView::Missing => {
            lemma_content_headers_values(response.content.len(), "text/html"@);
        },
        TargetView::Directory(children) => {
            lemma_content_headers_values(response.content.len(), "text/html"@);
        },
        TargetView::File(contents) => {
            lemma_content_headers_values(response.content.len(), mime_type_of(path));
        },
        TargetView::Unreadable => {},
    }
}

} // verus!
