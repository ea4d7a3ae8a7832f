//! Requests as they are read from a connection and responses as they are
//! written to it.

use vstd::prelude::*;
use vstd::slice::slice_subrange;
use vstd::slice::slice_to_vec;
use vstd::string::StringSliceAdditionalSpecFns;
use crate::headers::header_block;
use crate::headers::Entry;
use crate::headers::Headers;
use crate::text::append;
use crate::text::signed_decimal;
use crate::text::signed_decimal_bytes;
use crate::text::split;
use crate::text::split_bytes;
use crate::text::views;
use crate::text::CR;
use crate::text::LF;
use crate::text::SPACE;

verus! {

/// Why no request could be read from what a client sent.
#[derive(Clone, Copy, Debug, PartialEq, Eq, Structural)]
pub enum ParseError {
    /// Nothing was sent before the first empty line or the end of the
    /// stream: there is no request line.
    NoRequest,
    /// The request line has fewer than three tokens.
    Malformed,
}

/// The request line of an HTTP request.
#[derive(Clone, Debug, PartialEq, Eq)]
pub struct HttpRequest {
    pub method: Vec<u8>,
    pub path: Vec<u8>,
    pub http_version: Vec<u8>,
}

/// A request as it is spoken of in contracts.
pub struct RequestView {
    pub method: Seq<u8>,
    pub path: Seq<u8>,
    pub http_version: Seq<u8>,
}

impl View for HttpRequest {
    type V = RequestView;

    open spec fn view(&self) -> RequestView {
        RequestView { method: self.method@, path: self.path@, http_version: self.http_version@ }
    }
}

/// A line without its end: the line feed is gone already, and a carriage
/// return just before it goes too. `ended` says whether a line feed
/// followed; the last line of a stream may lack one and is then taken as it
/// stands.
pub open spec fn line_content(piece: Seq<u8>, ended: bool) -> Seq<u8> {
    if ended && piece.len() > 0 && piece.last() == CR {
        piece.drop_last()
    } else {
        piece
    }
}

/// The first line of what was received, without its end.
pub open spec fn first_line(raw: Seq<u8>) -> Seq<u8> {
    let lines = split(raw, LF);
    line_content(lines[0], lines.len() > 1)
}

/// Whether what was received holds an empty line, which ends the header
/// section: nothing after it belongs to the request's head.
pub open spec fn head_complete(raw: Seq<u8>) -> bool {
    let lines = split(raw, LF);
    exists|i: int| 0 <= i < lines.len() - 1 && line_content(#[trigger] lines[i], true).len() == 0
}

/// The request that a client's bytes hold. The first line is cut at every
/// single space; its first three tokens are the method, the path and the
/// protocol version, and further tokens are passed over. An empty first
/// line, or no byte at all, is no request; a first line with fewer than
/// three tokens is malformed. Lines after the first are not looked at.
pub open spec fn parsed(raw: Seq<u8>) -> Result<RequestView, ParseError> {
    let line = first_line(raw);
    let tokens = split(line, SPACE);
    if line.len() == 0 {
        Err(ParseError::NoRequest)
    } else if tokens.len() < 3 {
        Err(ParseError::Malformed)
    } else {
        Ok(RequestView { method: tokens[0], path: tokens[1], http_version: tokens[2] })
    }
}

/// Whether the header section of a request has been received in full. A
/// reader stops at the first `true`, or at the end of the stream.
pub fn is_head_complete(raw: &[u8]) -> (complete: bool)
    ensures
        complete == head_complete(raw@),
{
    let lines = split_bytes(raw, LF);
    let ghost pieces = split(raw@, LF);
    proof {
        crate::text::lemma_split_join(raw@, LF);
    }
    let mut i: usize = 0;
    while i + 1 < lines.len()
        invariant
            i < lines.len(),
            pieces == split(raw@, LF),
            views(lines@) == pieces,
            forall|k: int| 0 <= k < i ==> line_content(#[trigger] pieces[k], true).len() != 0,
        decreases lines.len() - i,
    {
        let line: &Vec<u8> = &lines[i];
        proof {
            assert(line@ == pieces[i as int]);
        }
        let n = line.len();
        if n == 0 || (n == 1 && line[0] == CR) {
            proof {
                assert(line_content(pieces[i as int], true).len() == 0);
            }
            return true;
        }
        i += 1;
    }
    false
}

impl HttpRequest {
    /// Reads the request line from what a client sent.
    pub fn parse(raw: &[u8]) -> (request: Result<HttpRequest, ParseError>)
        ensures
            match request {
                Ok(r) => parsed(raw@) == Ok::<RequestView, ParseError>(r@),
                Err(e) => parsed(raw@) == Err::<RequestView, ParseError>(e),
            },
    {
        let lines = split_bytes(raw, LF);
        proof {
            crate::text::lemma_split_join(raw@, LF);
        }
        let first: &Vec<u8> = &lines[0];
        proof {
            assert(first@ == split(raw@, LF)[0]);
        }
        let mut end: usize = first.len();
        if lines.len() > 1 && end > 0 && first[end - 1] == CR {
            end -= 1;
        }
        let line = slice_subrange(first.as_slice(), 0, end);
        proof {
            assert(first@.subrange(0, first@.len() as int) == first@);
            assert(line@ == first_line(raw@));
        }
        if end == 0 {
            return Err(ParseError::NoRequest);
        }
        let tokens = split_bytes(line, SPACE);
        if tokens.len() < 3 {
            return Err(ParseError::Malformed);
        }
        proof {
            let t = split(line@, SPACE);
            assert(tokens[0]@ == t[0] && tokens[1]@ == t[1] && tokens[2]@ == t[2]);
        }
        Ok(
            HttpRequest {
                method: slice_to_vec(tokens[0].as_slice()),
                path: slice_to_vec(tokens[1].as_slice()),
                http_version: slice_to_vec(tokens[2].as_slice()),
            },
        )
    }
}

/// A response: status, headers and body.
#[derive(Debug, PartialEq, Eq)]
pub struct HttpResponse {
    pub status_code: i32,
    pub status_text: Vec<u8>,
    pub headers: Headers,
    pub content: Vec<u8>,
}

/// A response as it is spoken of in contracts.
pub struct ResponseView {
    pub status_code: int,
    pub status_text: Seq<u8>,
    pub headers: Seq<Entry>,
    pub content: Seq<u8>,
}

impl View for HttpResponse {
    type V = ResponseView;

    open spec fn view(&self) -> ResponseView {
        ResponseView {
            status_code: self.status_code as int,
            status_text: self.status_text@,
            headers: self.headers@,
            content: self.content@,
        }
    }
}

/// The first line of a response on the wire. The status code stands in it
/// twice, the second time where a reason phrase is usual; the status text
/// of a response is not sent.
pub open spec fn status_line(code: int) -> Seq<u8> {
    "HTTP/1.1 ".spec_bytes() + signed_decimal(code) + seq![SPACE] + signed_decimal(code) + seq![
        CR,
        LF,
    ]
}

/// A response on the wire: the status line, one line for each header in the
/// order the headers are held, an empty line, the body byte for byte, and
/// two ends of line after the body.
pub open spec fn wire(response: ResponseView) -> Seq<u8> {
    status_line(response.status_code) + header_block(response.headers) + seq![CR, LF]
        + response.content + seq![CR, LF, CR, LF]
}

impl HttpResponse {
    /// A response with status 200 `OK`, no headers and an empty body.
    pub fn new() -> (response: HttpResponse)
        ensures
            response@ == (ResponseView {
                status_code: 200,
                status_text: "OK".spec_bytes(),
                headers: Seq::<Entry>::empty(),
                content: Seq::<u8>::empty(),
            }),
    {
        HttpResponse {
            status_code: 200,
            status_text: slice_to_vec("OK".as_bytes()),
            headers: Headers::new(),
            content: Vec::new(),
        }
    }

    /// The response as it goes on the wire.
    pub fn to_text(&self) -> (text: Vec<u8>)
        ensures
            text@ == wire(self@),
    {
        let code = signed_decimal_bytes(self.status_code);
        let mut text: Vec<u8> = Vec::new();
        append(&mut text, "HTTP/1.1 ".as_bytes());
        append(&mut text, code.as_slice());
        text.push(SPACE);
        append(&mut text, code.as_slice());
        text.push(CR);
        text.push(LF);
        assert(text@ == status_line(self.status_code as int));
        self.headers.write_to(&mut text);
        text.push(CR);
        text.push(LF);
        append(&mut text, self.content.as_slice());
        text.push(CR);
        text.push(LF);
        text.push(CR);
        text.push(LF);
        assert(text@ == wire(self@));
        text
    }
}

} // verus!
