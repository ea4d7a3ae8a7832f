//! One connection from the first byte to the response.
//!
//! Serving a request takes up to three turns with the outside world: the
//! request is read, for the path `/` the server asks whether `index.html`
//! is a file, and the resolved path is looked up. What to do next is
//! decided here; doing it is the caller's part. The caller starts at
//! [`Stage::Start`] with what it received, hands each action's result back
//! as the next event, and is done when the action is a response. Exactly
//! one response comes out of every connection.

use vstd::prelude::*;
use vstd::slice::slice_to_vec;
use vstd::string::StringSliceAdditionalSpecFns;
use crate::http::parsed;
use crate::http::HttpRequest;
use crate::http::HttpResponse;
use crate::http::RequestView;
use crate::http::ResponseView;
use crate::path::canonical;
use crate::path::is_name;
use crate::path::lemma_resolved_path_stays_below_base;
use crate::path::resolved;
use crate::path::ResolvedPath;
use crate::respond::handle_http_request;
use crate::respond::lemma_content_length_matches_body;
use crate::respond::lemma_content_headers_values;
use crate::respond::lemma_directory_is_listed;
use crate::respond::list_item;
use crate::respond::not_found;
use crate::respond::not_found_response;
use crate::respond::placeholder;
use crate::respond::response_for;
use crate::respond::server_error;
use crate::respond::server_error_response;
use crate::respond::Pages;
use crate::respond::PagesView;
use crate::respond::ResolvedTarget;
use crate::respond::TargetView;
use crate::headers::value_of;
use crate::text::decimal;
use crate::text::occurs_in;
use crate::text::replaced;
use crate::text::views;
use crate::text::SLASH;

verus! {

/// How far a connection has come.
#[derive(Debug, PartialEq, Eq)]
pub enum Stage {
    /// Nothing has been handled yet.
    Start,
    /// The request asks for `/`, and whether `index.html` is a file has
    /// been asked.
    IndexAsked { request: HttpRequest },
    /// The request's path is resolved, and what it points at has been asked.
    TargetAsked { request: HttpRequest, path: ResolvedPath },
    /// The response has been given.
    Done,
}

/// What the caller reports.
#[derive(Debug, PartialEq, Eq)]
pub enum Event {
    /// What the client sent, up to the end of the header section or the end
    /// of the stream.
    Received(Vec<u8>),
    /// Whether `index.html` in the served directory is a regular file.
    IndexProbed(bool),
    /// What was found at the names that were asked for.
    TargetProbed(ResolvedTarget),
}

/// What the caller is to do next.
#[derive(Debug, PartialEq, Eq)]
pub enum Action {
    /// Find out whether `index.html` in the served directory is a regular
    /// file, and report it.
    ProbeIndex,
    /// Go down from the served directory by these names, find out what is
    /// there, read it, and report it.
    ProbeTarget(Vec<Vec<u8>>),
    /// Send this response and close the connection.
    Respond(HttpResponse),
}

/// A stage as it is spoken of in contracts.
pub enum StageView {
    Start,
    IndexAsked { request: RequestView },
    TargetAsked { request: RequestView, path: Seq<Seq<u8>> },
    Done,
}

/// An event as it is spoken of in contracts.
pub enum EventView {
    Received(Seq<u8>),
    IndexProbed(bool),
    TargetProbed(TargetView),
}

/// An action as it is spoken of in contracts.
pub enum ActionView {
    ProbeIndex,
    ProbeTarget(Seq<Seq<u8>>),
    Respond(ResponseView),
}

impl View for Stage {
    type V = StageView;

    open spec fn view(&self) -> StageView {
        match self {
            Stage::Start => StageView::Start,
            Stage::IndexAsked { request } => StageView::IndexAsked { request: request@ },
            Stage::TargetAsked { request, path } => StageView::TargetAsked {
                request: request@,
                path: path@,
            },
            Stage::Done => StageView::Done,
        }
    }
}

impl View for Event {
    type V = EventView;

    open spec fn view(&self) -> EventView {
        match self {
            Event::Received(raw) => EventView::Received(raw@),
            Event::IndexProbed(is_file) => EventView::IndexProbed(*is_file),
            Event::TargetProbed(target) => EventView::TargetProbed(target@),
        }
    }
}

impl View for Action {
    type V = ActionView;

    open spec fn view(&self) -> ActionView {
        match self {
            Action::ProbeIndex => ActionView::ProbeIndex,
            Action::ProbeTarget(names) => ActionView::ProbeTarget(views(names@)),
            Action::Respond(response) => ActionView::Respond(response@),
        }
    }
}

/// The path `/`, which asks for the served directory itself.
pub open spec fn root_path() -> Seq<u8> {
    seq![SLASH]
}

/// The path of the default document.
pub open spec fn index_path() -> Seq<u8> {
    "/index.html".spec_bytes()
}

/// The request that is served in place of one for `/`: where `index.html`
/// is a file, the request for it, and else the request as it came.
pub open spec fn rewritten(request: RequestView, index_is_file: bool) -> RequestView {
    if request.path == root_path() && index_is_file {
        RequestView { method: request.method, path: index_path(), http_version: request.http_version }
    } else {
        request
    }
}

/// What follows once it is settled which path a request is served for: a
/// path with a `..` segment is answered as not found without a look at the
/// filesystem, any other is looked up.
pub open spec fn located(request: RequestView, pages: PagesView) -> (StageView, ActionView) {
    match resolved(request.path) {
        Some(names) => (
            StageView::TargetAsked { request, path: names },
            ActionView::ProbeTarget(names),
        ),
        None => (StageView::Done, ActionView::Respond(not_found_response(pages.not_found))),
    }
}

/// The next stage and the action for an event at a stage. An event that
/// does not answer what the stage asked for ends the connection with a
/// server error, as a request that cannot be read does.
pub open spec fn step(stage: StageView, event: EventView, pages: PagesView) -> (
    StageView,
    ActionView,
) {
    match (stage, event) {
        (StageView::Start, EventView::Received(raw)) => match parsed(raw) {
            Ok(request) => if request.path == root_path() {
                (StageView::IndexAsked { request }, ActionView::ProbeIndex)
            } else {
                located(request, pages)
            },
            Err(_) => (StageView::Done, ActionView::Respond(server_error_response())),
        },
        (StageView::IndexAsked { request }, EventView::IndexProbed(is_file)) => located(
            rewritten(request, is_file),
            pages,
        ),
        (StageView::TargetAsked { request, path }, EventView::TargetProbed(target)) => (
            StageView::Done,
            ActionView::Respond(response_for(request.path, path, target, pages)),
        ),
        _ => (StageView::Done, ActionView::Respond(server_error_response())),
    }
}

/// Resolves the request's path and asks for what it points at.
fn locate(request: HttpRequest, pages: &Pages) -> (next: (Stage, Action))
    ensures
        (next.0@, next.1@) == located(request@, pages@),
{
    match ResolvedPath::resolve(request.path.as_slice()) {
        Some(path) => {
            let names = path.to_names();
            (Stage::TargetAsked { request, path }, Action::ProbeTarget(names))
        },
        None => (Stage::Done, Action::Respond(not_found(pages.not_found.as_slice()))),
    }
}

/// Takes a connection one step further: from the stage it is at and what
/// the caller reports to the next stage and what the caller is to do.
pub fn handle_connection(stage: Stage, event: Event, pages: &Pages) -> (next: (Stage, Action))
    ensures
        (next.0@, next.1@) == step(stage@, event@, pages@),
{
    match (stage, event) {
        (Stage::Start, Event::Received(raw)) => match HttpRequest::parse(raw.as_slice()) {
            Ok(request) => {
                if request.path.len() == 1 && request.path[0] == SLASH {
                    assert(request@.path == root_path());
                    (Stage::IndexAsked { request }, Action::ProbeIndex)
                } else {
                    proof {
                        if request@.path == root_path() {
                            assert(request@.path.len() == 1);
                            assert(request@.path[0] == SLASH);
                        }
                    }
                    locate(request, pages)
                }
            },
            Err(_) => (Stage::Done, Action::Respond(server_error())),
        },
        (Stage::IndexAsked { request }, Event::IndexProbed(is_file)) => {
            if is_file && request.path.len() == 1 && request.path[0] == SLASH {
                assert(request@.path == root_path());
                let served = HttpRequest {
                    method: request.method,
                    path: slice_to_vec("/index.html".as_bytes()),
                    http_version: request.http_version,
                };
                locate(served, pages)
            } else {
                proof {
                    if request@.path == root_path() {
                        assert(request@.path.len() == 1);
                        assert(request@.path[0] == SLASH);
                    }
                }
                locate(request, pages)
            }
        },
        (Stage::TargetAsked { request, path }, Event::TargetProbed(target)) => {
            let response = handle_http_request(&request, &path, target, pages);
            (Stage::Done, Action::Respond(response))
        },
        _ => (Stage::Done, Action::Respond(server_error())),
    }
}

/// What the caller reports for an action, where `index_is_file` says
/// whether `index.html` is a file and `found` says what stands at each list
/// of names.
pub open spec fn answer(
    action: ActionView,
    index_is_file: bool,
    found: spec_fn(Seq<Seq<u8>>) -> TargetView,
) -> EventView {
    match action {
        ActionView::ProbeTarget(names) => EventView::TargetProbed(found(names)),
        _ => EventView::IndexProbed(index_is_file),
    }
}

/// The response that a connection ends with if the caller does what it is
/// told for at most `turns` events, or `None` if that many do not suffice.
pub open spec fn run(
    stage: StageView,
    event: EventView,
    index_is_file: bool,
    found: spec_fn(Seq<Seq<u8>>) -> TargetView,
    pages: PagesView,
    turns: nat,
) -> Option<ResponseView>
    decreases turns,
{
    if turns == 0 {
        None
    } else {
        let (next, action) = step(stage, event, pages);
        match action {
            ActionView::Respond(response) => Some(response),
            _ => run(
                next,
                answer(action, index_is_file, found),
                index_is_file,
                found,
                pages,
                (turns - 1) as nat,
            ),
        }
    }
}

/// The response to what a client sent, given what the filesystem holds: a
/// request that cannot be read is a server error; a request for `/` is
/// served as one for `/index.html` where that is a file; a path with a `..`
/// segment is not found; and any other path is answered by what stands
/// where it resolves to.
pub open spec fn outcome(
    raw: Seq<u8>,
    index_is_file: bool,
    found: spec_fn(Seq<Seq<u8>>) -> TargetView,
    pages: PagesView,
) -> ResponseView {
    match parsed(raw) {
        Ok(request) => {
            let served = rewritten(request, index_is_file);
            match resolved(served.path) {
                Some(names) => response_for(served.path, names, found(names), pages),
                None => not_found_response(pages.not_found),
            }
        },
        Err(_) => server_error_response(),
    }
}

/// Every connection is answered, and with the response that `outcome`
/// names: whatever was received and whatever the filesystem holds, a caller
/// that starts at `Start` and reports what it is asked for has its response
/// after three events at most.
pub proof fn lemma_connection_is_answered(
    raw: Seq<u8>,
    index_is_file: bool,
    found: spec_fn(Seq<Seq<u8>>) -> TargetView,
    pages: PagesView,
)
    ensures
        run(StageView::Start, EventView::Received(raw), index_is_file, found, pages, 3) == Some(
            outcome(raw, index_is_file, found, pages),
        ),
{
    reveal_with_fuel(run, 4);
}

/// The root is served by the default document: where `index.html` is a
/// file, a request for `/` gets the very response that a request for
/// `/index.html` gets, headers and body alike.
pub proof fn lemma_root_serves_index(
    root_request: Seq<u8>,
    index_request: Seq<u8>,
    index_is_file: bool,
    found: spec_fn(Seq<Seq<u8>>) -> TargetView,
    pages: PagesView,
)
    requires
        parsed(root_request) matches Ok(request) && request.path == root_path(),
        parsed(index_request) matches Ok(request) && request.path == index_path(),
    ensures
        outcome(root_request, true, found, pages) == outcome(
            index_request,
            index_is_file,
            found,
            pages,
        ),
{
}

/// A path that resolves to nothing is not found: the status is 404 and the
/// body is the not-found page.
pub proof fn lemma_missing_entry_is_not_found(
    raw: Seq<u8>,
    index_is_file: bool,
    found: spec_fn(Seq<Seq<u8>>) -> TargetView,
    pages: PagesView,
)
    requires
        parsed(raw) matches Ok(request) && (resolved(
            rewritten(request, index_is_file).path,
        ) matches Some(names) && found(names) == TargetView::Missing),
    ensures
        outcome(raw, index_is_file, found, pages).status_code == 404,
        outcome(raw, index_is_file, found, pages).content == pages.not_found,
{
}

/// A path that resolves to a directory gets the directory's listing: the
/// status is 200, the media type is `text/html`, the body is the directory
/// page with the list in the placeholder's place, and the list is made of
/// one item per child, in the order in which the children were reported.
pub proof fn lemma_directory_entry_is_listed(
    raw: Seq<u8>,
    index_is_file: bool,
    found: spec_fn(Seq<Seq<u8>>) -> TargetView,
    pages: PagesView,
    children: Seq<Seq<u8>>,
)
    requires
        parsed(raw) matches Ok(request) && (resolved(
            rewritten(request, index_is_file).path,
        ) matches Some(names) && found(names) == TargetView::Directory(children)),
    ensures
        ({
            let response = outcome(raw, index_is_file, found, pages);
            let request_path = rewritten(parsed(raw)->Ok_0, index_is_file).path;
            let items = Seq::new(children.len(), |i: int| list_item(request_path, children[i]));
            &&& response.status_code == 200
            &&& value_of(response.headers, "Content-Type".spec_bytes()) == Some(
                "text/html".spec_bytes(),
            )
            &&& items.len() == children.len()
            &&& response.content == replaced(pages.folder_view, placeholder(), items.flatten())
            &&& occurs_in(placeholder(), pages.folder_view) ==> occurs_in(
                items.flatten(),
                response.content,
            )
        }),
{
    let request = parsed(raw)->Ok_0;
    let served = rewritten(request, index_is_file);
    let names = resolved(served.path)->Some_0;
    lemma_directory_is_listed(served.path, names, children, pages);
}

/// No lookup leaves the served directory: whatever the stage and the event,
/// an action that asks for a lookup names entries only, never `..`, `.`,
/// the empty name or a name with a slash, so that below any base directory
/// the place looked at lies under that base.
pub proof fn lemma_lookups_stay_below_base(
    stage: StageView,
    event: EventView,
    pages: PagesView,
    base: Seq<Seq<u8>>,
)
    ensures
        step(stage, event, pages).1 matches ActionView::ProbeTarget(names) ==> {
            &&& forall|i: int| 0 <= i < names.len() ==> is_name(#[trigger] names[i])
            &&& canonical(base + names) == canonical(base) + names
            &&& canonical(base).is_prefix_of(canonical(base + names))
        },
{
    match (stage, event) {
        (StageView::Start, EventView::Received(raw)) => {
            match parsed(raw) {
                Ok(request) => {
                    if request.path != root_path() && resolved(request.path) is Some {
                        lemma_resolved_path_stays_below_base(base, request.path);
                    }
                },
                Err(_) => {},
            }
        },
        (StageView::IndexAsked { request }, EventView::IndexProbed(is_file)) => {
            let served = rewritten(request, is_file);
            if resolved(served.path) is Some {
                lemma_resolved_path_stays_below_base(base, served.path);
            }
        },
        _ => {},
    }
}

/// A body never goes without its length: whatever was received and whatever
/// the filesystem holds, a response with a body that is not empty has a
/// `Content-Length` header with the body's length in decimal.
pub proof fn lemma_every_body_has_its_length(
    raw: Seq<u8>,
    index_is_file: bool,
    found: spec_fn(Seq<Seq<u8>>) -> TargetView,
    pages: PagesView,
)
    ensures
        ({
            let response = outcome(raw, index_is_file, found, pages);
            response.content.len() > 0 ==> value_of(
                response.headers,
                "Content-Length".spec_bytes(),
            ) == Some(decimal(response.content.len()))
        }),
{
    match parsed(raw) {
        Ok(request) => {
            let served = rewritten(request, index_is_file);
            match resolved(served.path) {
                Some(names) => {
                    lemma_content_length_matches_body(served.path, names, found(names), pages);
                },
                None => {
                    lemma_content_headers_values(pages.not_found.len(), "text/html"@);
                },
            }
        },
        Err(_) => {},
    }
}

} // verus!
