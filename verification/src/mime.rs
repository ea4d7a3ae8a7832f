//! Media types by file extension.

use vstd::prelude::*;
use vstd::slice::slice_subrange;
use vstd::string::StringSliceAdditionalSpecFns;
use vstd::utf8::is_ascii_chars_encode_utf8;
use crate::path::ResolvedPath;
use crate::text::bytes_eq;
use crate::text::DOT;

verus! {

/// The extension of a file name: what follows its last dot, unless that dot
/// is the name's first byte or the name has no dot. `site.min.css` has the
/// extension `css`, `archive.` the empty extension, and `.profile` and
/// `README` have none.
pub open spec fn extension_of(name: Seq<u8>) -> Option<Seq<u8>>
    decreases name.len(),
{
    if name.len() <= 1 {
        None
    } else if name.last() == DOT {
        Some(Seq::<u8>::empty())
    } else {
        match extension_of(name.drop_last()) {
            Some(ext) => Some(ext.push(name.last())),
            None => None,
        }
    }
}

/// The media type that the table gives an extension. Extensions are matched
/// byte for byte, so only the lower-case spellings are known.
pub open spec fn mime_of_extension(ext: Seq<u8>) -> Seq<char> {
    if ext == "css".spec_bytes() {
        "text/css"@
    } else if ext == "js".spec_bytes() {
        "text/javascript"@
    } else if ext == "jpeg".spec_bytes() {
        "image/jpeg"@
    } else if ext == "png".spec_bytes() {
        "image/png"@
    } else if ext == "svg".spec_bytes() {
        "image/svg+xml"@
    } else if ext == "wasm".spec_bytes() {
        "application/wasm"@
    } else if ext == "html".spec_bytes() {
        "text/html"@
    } else {
        "application/octet-stream"@
    }
}

/// The media type of the entry that a resolved path points at, by the
/// extension of its last name.
pub open spec fn mime_type_of(path: Seq<Seq<u8>>) -> Seq<char> {
    if path.len() == 0 {
        "application/octet-stream"@
    } else {
        match extension_of(path.last()) {
            Some(ext) => mime_of_extension(ext),
            None => "application/octet-stream"@,
        }
    }
}

/// What `extension_of` finds, said without recursion: an extension is free
/// of dots and is what stands behind a dot that is not the name's first
/// byte; and where there is no extension, no byte but the first is a dot.
pub proof fn lemma_extension_of(name: Seq<u8>)
    ensures
        match extension_of(name) {
            Some(ext) => {
                &&& ext.len() + 1 < name.len()
                &&& name[name.len() - ext.len() - 1] == DOT
                &&& name.skip(name.len() - ext.len()) == ext
                &&& !ext.contains(DOT)
            },
            None => forall|j: int| 0 < j < name.len() ==> name[j] != DOT,
        },
    decreases name.len(),
{
    if name.len() <= 1 {
    } else if name.last() == DOT {
        assert(name.skip(name.len() as int) == Seq::<u8>::empty());
    } else {
        let shorter = name.drop_last();
        lemma_extension_of(shorter);
        match extension_of(shorter) {
            Some(ext) => {
                let grown = ext.push(name.last());
                assert(name[name.len() - grown.len() - 1] == shorter[shorter.len() - ext.len() - 1]);
                assert(name.skip(name.len() - grown.len()) == shorter.skip(
                    shorter.len() - ext.len(),
                ).push(name.last()));
                assert forall|k: int| 0 <= k < grown.len() implies grown[k] != DOT by {
                    if k < ext.len() {
                        assert(ext.contains(ext[k]));
                    }
                }
            },
            None => {
                assert forall|j: int| 0 < j < name.len() implies name[j] != DOT by {
                    if j < shorter.len() {
                        assert(shorter[j] == name[j]);
                    }
                }
            },
        }
    }
}

/// The extension of a file name, as a part of the name.
pub fn extension(name: &[u8]) -> (ext: Option<&[u8]>)
    ensures
        match ext {
            Some(e) => extension_of(name@) == Some(e@),
            None => extension_of(name@) is None,
        },
{
    let n = name.len();
    let mut at: usize = n;
    proof {
        assert(name@.take(n as int) == name@);
    }
    // Walks back from the end to the last dot that is not the first byte.
    while at > 1 && name[at - 1] != DOT
        invariant
            at <= n,
            n == name.len(),
            extension_of(name@) == match extension_of(name@.take(at as int)) {
                Some(e) => Some(e + name@.subrange(at as int, n as int)),
                None => None,
            },
        decreases at,
    {
        proof {
            let here = name@.take(at as int);
            assert(here.drop_last() == name@.take(at - 1));
            assert(here.last() == name@[at - 1]);
            match extension_of(name@.take(at - 1)) {
                Some(e) => {
                    assert(e.push(name@[at - 1]) + name@.subrange(at as int, n as int) == e
                        + name@.subrange(at - 1, n as int));
                },
                None => {},
            }
        }
        at -= 1;
    }
    if at <= 1 {
        None
    } else {
        proof {
            let here = name@.take(at as int);
            assert(here.last() == DOT);
            assert(extension_of(here) == Some(Seq::<u8>::empty()));
            assert(Seq::<u8>::empty() + name@.subrange(at as int, n as int) == name@.subrange(
                at as int,
                n as int,
            ));
        }
        Some(slice_subrange(name, at, n))
    }
}

/// Looks an extension up in the table of media types.
pub fn mime_for_extension(ext: &[u8]) -> (mime: &'static str)
    ensures
        mime@ == mime_of_extension(ext@),
{
    if bytes_eq(ext, "css".as_bytes()) {
        "text/css"
    } else if bytes_eq(ext, "js".as_bytes()) {
        "text/javascript"
    } else if bytes_eq(ext, "jpeg".as_bytes()) {
        "image/jpeg"
    } else if bytes_eq(ext, "png".as_bytes()) {
        "image/png"
    } else if bytes_eq(ext, "svg".as_bytes()) {
        "image/svg+xml"
    } else if bytes_eq(ext, "wasm".as_bytes()) {
        "application/wasm"
    } else if bytes_eq(ext, "html".as_bytes()) {
        "text/html"
    } else {
        "application/octet-stream"
    }
}

/// The media type for the entry that `path` points at.
pub fn find_mime_type(path: &ResolvedPath) -> (mime: &'static str)
    ensures
        mime@ == mime_type_of(path@),
{
    match path.file_name() {
        Some(name) => match extension(name) {
            Some(ext) => mime_for_extension(ext),
            None => "application/octet-stream",
        },
        None => "application/octet-stream",
    }
}

/// The table of media types, entry by entry: each of the seven known
/// extensions has its type, no entry hides another, and every other byte
/// string has `application/octet-stream`.
pub proof fn lemma_mime_table()
    ensures
        mime_of_extension("css".spec_bytes()) == "text/css"@,
        mime_of_extension("js".spec_bytes()) == "text/javascript"@,
        mime_of_extension("jpeg".spec_bytes()) == "image/jpeg"@,
        mime_of_extension("png".spec_bytes()) == "image/png"@,
        mime_of_extension("svg".spec_bytes()) == "image/svg+xml"@,
        mime_of_extension("wasm".spec_bytes()) == "application/wasm"@,
        mime_of_extension("html".spec_bytes()) == "text/html"@,
        forall|ext: Seq<u8>|
            ext != "css".spec_bytes() && ext != "js".spec_bytes() && ext != "jpeg".spec_bytes()
                && ext != "png".spec_bytes() && ext != "svg".spec_bytes() && ext
                != "wasm".spec_bytes() && ext != "html".spec_bytes() ==> #[trigger] mime_of_extension(
                ext,
            ) == "application/octet-stream"@,
{
    reveal_strlit("css");
    reveal_strlit("js");
    reveal_strlit("jpeg");
    reveal_strlit("png");
    reveal_strlit("svg");
    reveal_strlit("wasm");
    reveal_strlit("html");
    is_ascii_chars_encode_utf8("css"@);
    is_ascii_chars_encode_utf8("js"@);
    is_ascii_chars_encode_utf8("jpeg"@);
    is_ascii_chars_encode_utf8("png"@);
    is_ascii_chars_encode_utf8("svg"@);
    is_ascii_chars_encode_utf8("wasm"@);
    is_ascii_chars_encode_utf8("html"@);
    // Equal lengths are told apart by their first byte.
    assert("svg".spec_bytes()[0] == 's' as u8 && "css".spec_bytes()[0] == 'c' as u8);
    assert("png".spec_bytes()[0] == 'p' as u8);
    assert("jpeg".spec_bytes()[0] == 'j' as u8 && "wasm".spec_bytes()[0] == 'w' as u8);
    assert("html".spec_bytes()[0] == 'h' as u8);
}

} // verus!
