//! Where a request path points below the served directory.
//!
//! A request path is cut at every `/`. Empty segments and `.` say nothing
//! and are dropped, so any number of leading slashes still gives a path
//! relative to the served directory. A path with a `..` segment is refused
//! as a whole. What is left is a list of plain names, and a list of plain
//! names can only lead downwards.

use vstd::prelude::*;
use vstd::slice::slice_to_vec;
use crate::text::split;
use crate::text::split_bytes;
use crate::text::views;
use crate::text::DOT;
use crate::text::SLASH;

verus! {

/// The segment `..`, which names the parent directory.
pub open spec fn is_parent(segment: Seq<u8>) -> bool {
    segment == seq![DOT, DOT]
}

/// A segment that stands for no step at all: the empty one and `.`.
pub open spec fn is_ignored(segment: Seq<u8>) -> bool {
    segment.len() == 0 || segment == seq![DOT]
}

/// A segment that names an entry of a directory.
pub open spec fn is_name(segment: Seq<u8>) -> bool {
    !is_ignored(segment) && !is_parent(segment) && !segment.contains(SLASH)
}

/// The test by which segments are kept when a path is resolved.
pub open spec fn kept() -> spec_fn(Seq<u8>) -> bool {
    |segment: Seq<u8>| !is_ignored(segment)
}

/// The names that a request path leads through, from the served directory
/// down, or `None` if the path has a `..` segment.
pub open spec fn resolved(request_path: Seq<u8>) -> Option<Seq<Seq<u8>>> {
    let segments = split(request_path, SLASH);
    if exists|i: int| 0 <= i < segments.len() && is_parent(#[trigger] segments[i]) {
        None
    } else {
        Some(segments.filter(kept()))
    }
}

/// What a filesystem makes of a list of segments, read from the left, when
/// no segment is a symbolic link: empty ones and `.` are passed over, `..`
/// takes the last name away (at the root there is none to take), and any
/// other segment is added.
pub open spec fn canonical(segments: Seq<Seq<u8>>) -> Seq<Seq<u8>>
    decreases segments.len(),
{
    if segments.len() == 0 {
        Seq::<Seq<u8>>::empty()
    } else {
        let before = canonical(segments.drop_last());
        let segment = segments.last();
        if is_ignored(segment) {
            before
        } else if is_parent(segment) {
            if before.len() > 0 {
                before.drop_last()
            } else {
                before
            }
        } else {
            before.push(segment)
        }
    }
}

/// A request path as a list of names below the served directory.
#[derive(Debug, PartialEq, Eq)]
pub struct ResolvedPath {
    segments: Vec<Vec<u8>>,
}

impl View for ResolvedPath {
    type V = Seq<Seq<u8>>;

    closed spec fn view(&self) -> Seq<Seq<u8>> {
        views(self.segments@)
    }
}

impl ResolvedPath {
    #[verifier::type_invariant]
    spec fn names_only(&self) -> bool {
        forall|i: int| 0 <= i < self@.len() ==> is_name(#[trigger] self@[i])
    }

    /// Resolves a request path. The result is `None` exactly when one of the
    /// path's segments is `..`; otherwise it holds the path's segments in
    /// order, without the empty ones and without `.`.
    pub fn resolve(request_path: &[u8]) -> (path: Option<ResolvedPath>)
        ensures
            match path {
                Some(p) => resolved(request_path@) == Some(p@),
                None => resolved(request_path@) is None,
            },
            path matches Some(p) ==> forall|i: int| 0 <= i < p@.len() ==> is_name(#[trigger] p@[i]),
    {
        let pieces = split_bytes(request_path, SLASH);
        let ghost segments = split(request_path@, SLASH);
        let mut names: Vec<Vec<u8>> = Vec::new();
        let mut i: usize = 0;
        proof {
            crate::text::lemma_split_join(request_path@, SLASH);
            assert(segments.take(0) == Seq::<Seq<u8>>::empty());
            reveal(Seq::filter);
            assert(segments.take(0).filter(kept()) == Seq::<Seq<u8>>::empty());
        }
        while i < pieces.len()
            invariant
                i <= pieces.len(),
                segments == split(request_path@, SLASH),
                views(pieces@) == segments,
                forall|k: int| 0 <= k < segments.len() ==> !(#[trigger] segments[k]).contains(SLASH),
                forall|k: int| 0 <= k < i ==> !is_parent(#[trigger] segments[k]),
                views(names@) == segments.take(i as int).filter(kept()),
                forall|k: int| 0 <= k < names@.len() ==> is_name(#[trigger] views(names@)[k]),
            decreases pieces.len() - i,
        {
            let piece: &Vec<u8> = &pieces[i];
            proof {
                assert(piece@ == segments[i as int]);
                assert(segments.take(i + 1) == segments.take(i as int).push(segments[i as int]));
                segments.take(i as int).lemma_filter_push(segments[i as int], kept());
            }
            if piece.len() == 2 && piece[0] == DOT && piece[1] == DOT {
                proof {
                    assert(piece@ == seq![DOT, DOT]);
                    assert(is_parent(segments[i as int]));
                }
                return None;
            }
            proof {
                if is_parent(segments[i as int]) {
                    assert(piece@.len() == 2);
                    assert(piece@[0] == DOT && piece@[1] == DOT);
                }
            }
            if piece.len() == 0 || (piece.len() == 1 && piece[0] == DOT) {
                proof {
                    if piece@.len() == 1 {
                        assert(piece@ == seq![DOT]);
                    }
                    assert(is_ignored(segments[i as int]));
                }
            } else {
                proof {
                    if piece@ == seq![DOT] {
                        assert(piece@.len() == 1);
                        assert(piece@[0] == DOT);
                    }
                    assert(!is_ignored(segments[i as int]));
                    assert(is_name(segments[i as int]));
                }
                let name = slice_to_vec(piece.as_slice());
                let ghost old_names = names@;
                names.push(name);
                proof {
                    assert(views(names@) == views(old_names).push(name@));
                }
            }
            i += 1;
        }
        proof {
            assert(segments.take(pieces.len() as int) == segments);
        }
        Some(ResolvedPath { segments: names })
    }

    /// The names of the path, from the served directory down.
    pub fn segments(&self) -> (names: &Vec<Vec<u8>>)
        ensures
            views(names@) == self@,
    {
        &self.segments
    }

    /// A copy of the names of the path, for the caller to walk down the
    /// served directory with.
    pub fn to_names(&self) -> (names: Vec<Vec<u8>>)
        ensures
            views(names@) == self@,
            forall|i: int| 0 <= i < self@.len() ==> is_name(#[trigger] self@[i]),
    {
        proof {
            use_type_invariant(self);
        }
        let mut names: Vec<Vec<u8>> = Vec::new();
        let mut i: usize = 0;
        while i < self.segments.len()
            invariant
                i <= self.segments.len(),
                views(names@) == views(self.segments@).take(i as int),
            decreases self.segments.len() - i,
        {
            let name = slice_to_vec(self.segments[i].as_slice());
            let ghost copied = names@;
            names.push(name);
            proof {
                assert(views(names@) == views(copied).push(name@));
                assert(views(self.segments@).take(i + 1) == views(self.segments@).take(
                    i as int,
                ).push(self.segments@[i as int]@));
            }
            i += 1;
        }
        proof {
            assert(views(self.segments@).take(self.segments.len() as int) == views(self.segments@));
        }
        names
    }

    /// The last name of the path, which is the entry it points at; `None`
    /// for the served directory itself.
    pub fn file_name(&self) -> (name: Option<&[u8]>)
        ensures
            match name {
                Some(n) => self@.len() > 0 && n@ == self@.last(),
                None => self@.len() == 0,
            },
    {
        let n = self.segments.len();
        if n == 0 {
            None
        } else {
            Some(self.segments[n - 1].as_slice())
        }
    }
}

/// A resolved path never leaves the directory it is joined to: it consists
/// of names only, so the filesystem's reading of `base` followed by the
/// path is its reading of `base` followed by those same names, and begins
/// with `base` as the filesystem reads it. This holds of every base and
/// every request path.
pub proof fn lemma_resolved_path_stays_below_base(base: Seq<Seq<u8>>, request_path: Seq<u8>)
    requires
        resolved(request_path) is Some,
    ensures
        forall|i: int|
            0 <= i < resolved(request_path).unwrap().len() ==> is_name(
                #[trigger] resolved(request_path).unwrap()[i],
            ),
        canonical(base + resolved(request_path).unwrap()) == canonical(base) + resolved(
            request_path,
        ).unwrap(),
        canonical(base).is_prefix_of(canonical(base + resolved(request_path).unwrap())),
{
    let segments = split(request_path, SLASH);
    let names = resolved(request_path).unwrap();
    crate::text::lemma_split_join(request_path, SLASH);
    assert forall|i: int| 0 <= i < names.len() implies is_name(#[trigger] names[i]) by {
        segments.lemma_filter_pred(kept(), i);
        segments.lemma_filter_contains_rev(kept(), names[i]);
        let k = choose|k: int| 0 <= k < segments.len() && segments[k] == names[i];
        assert(!is_parent(segments[k]));
        assert(!segments[k].contains(SLASH));
    }
    lemma_names_extend_canonical(base, names);
    assert((canonical(base) + names).subrange(0, canonical(base).len() as int) == canonical(base));
}

/// Names add to what came before them and take nothing away.
proof fn lemma_names_extend_canonical(base: Seq<Seq<u8>>, names: Seq<Seq<u8>>)
    requires
        forall|i: int| 0 <= i < names.len() ==> is_name(#[trigger] names[i]),
    ensures
        canonical(base + names) == canonical(base) + names,
    decreases names.len(),
{
    if names.len() == 0 {
        assert(base + names == base);
        assert(canonical(base) + names == canonical(base));
    } else {
        let whole = base + names;
        assert(whole.drop_last() == base + names.drop_last());
        assert(whole.last() == names.last());
        assert(is_name(names[names.len() - 1]));
        lemma_names_extend_canonical(base, names.drop_last());
        assert forall|i: int| 0 <= i < names.drop_last().len() implies is_name(
            #[trigger] names.drop_last()[i],
        ) by {
            assert(names.drop_last()[i] == names[i]);
        }
        assert((canonical(base) + names.drop_last()).push(names.last()) == canonical(base) + names);
    }
}

} // verus!
