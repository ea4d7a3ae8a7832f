//! Byte-string helpers: comparison, appending, splitting, substitution and
//! decimal rendering.

use vstd::prelude::*;
use vstd::slice::slice_subrange;
use vstd::slice::slice_to_vec;

verus! {

/// The space that separates the tokens of a request line.
pub const SPACE: u8 = 32;

/// The separator of path segments.
pub const SLASH: u8 = 47;

/// The dot of file extensions and of the `.` and `..` path segments.
pub const DOT: u8 = 46;

/// Carriage return.
pub const CR: u8 = 13;

/// Line feed.
pub const LF: u8 = 10;

/// Whether two byte strings hold the same bytes.
pub fn bytes_eq(a: &[u8], b: &[u8]) -> (same: bool)
    ensures
        same == (a@ == b@),
{
    if a.len() != b.len() {
        return false;
    }
    let mut i: usize = 0;
    while i < a.len()
        invariant
            i <= a.len(),
            a.len() == b.len(),
            a@.take(i as int) == b@.take(i as int),
        decreases a.len() - i,
    {
        if a[i] != b[i] {
            return false;
        }
        proof {
            assert(a@.take(i + 1) == a@.take(i as int).push(a@[i as int]));
            assert(b@.take(i + 1) == b@.take(i as int).push(b@[i as int]));
        }
        i += 1;
    }
    proof {
        assert(a@.take(a.len() as int) == a@);
        assert(b@.take(b.len() as int) == b@);
    }
    true
}

/// Appends `src` to `out`.
pub fn append(out: &mut Vec<u8>, src: &[u8])
    ensures
        final(out)@ == old(out)@ + src@,
{
    let mut i: usize = 0;
    while i < src.len()
        invariant
            i <= src.len(),
            out@ == old(out)@ + src@.take(i as int),
        decreases src.len() - i,
    {
        out.push(src[i]);
        proof {
            assert(src@.take(i + 1) == src@.take(i as int).push(src@[i as int]));
        }
        i += 1;
    }
    proof {
        assert(src@.take(src.len() as int) == src@);
    }
}

/// The pieces of `s` between occurrences of `sep`, in order. There is always
/// at least one piece, pieces may be empty, and none contains `sep`:
/// `a//b` split at `/` is `a`, the empty piece, `b`.
pub open spec fn split(s: Seq<u8>, sep: u8) -> Seq<Seq<u8>>
    decreases s.len(),
{
    if s.len() == 0 {
        seq![Seq::<u8>::empty()]
    } else {
        let before = split(s.drop_last(), sep);
        if s.last() == sep {
            before.push(Seq::<u8>::empty())
        } else {
            before.drop_last().push(before.last().push(s.last()))
        }
    }
}

/// The pieces joined again, with one `sep` between neighbours.
pub open spec fn join(pieces: Seq<Seq<u8>>, sep: u8) -> Seq<u8>
    decreases pieces.len(),
{
    if pieces.len() == 0 {
        Seq::<u8>::empty()
    } else if pieces.len() == 1 {
        pieces[0]
    } else {
        join(pieces.drop_last(), sep).push(sep) + pieces.last()
    }
}

/// What a vector of byte strings holds, as a sequence of sequences.
pub open spec fn views(v: Seq<Vec<u8>>) -> Seq<Seq<u8>> {
    Seq::new(v.len(), |i: int| v[i]@)
}

/// Splitting never yields nothing, no piece holds the separator, and joining
/// the pieces with the separator gives the input back.
pub proof fn lemma_split_join(s: Seq<u8>, sep: u8)
    ensures
        split(s, sep).len() >= 1,
        forall|i: int| 0 <= i < split(s, sep).len() ==> !(#[trigger] split(s, sep)[i]).contains(sep),
        join(split(s, sep), sep) == s,
    decreases s.len(),
{
    if s.len() == 0 {
        assert(join(split(s, sep), sep) == s);
    } else {
        let before = split(s.drop_last(), sep);
        lemma_split_join(s.drop_last(), sep);
        let now = split(s, sep);
        if s.last() == sep {
            assert(now.drop_last() == before);
            assert(join(now, sep) == join(before, sep).push(sep) + Seq::<u8>::empty());
            assert(join(now, sep) == s.drop_last().push(sep));
            assert(s.drop_last().push(s.last()) == s);
            assert forall|i: int| 0 <= i < now.len() implies !(#[trigger] now[i]).contains(sep) by {
                if i < before.len() {
                    assert(now[i] == before[i]);
                }
            }
        } else {
            let grown = before.last().push(s.last());
            assert(now == before.drop_last().push(grown));
            assert forall|i: int| 0 <= i < now.len() implies !(#[trigger] now[i]).contains(sep) by {
                if i < before.len() - 1 {
                    assert(now[i] == before[i]);
                } else {
                    assert(now[i] == grown);
                    assert(!before.last().contains(sep));
                    assert forall|k: int| 0 <= k < grown.len() implies grown[k] != sep by {
                        if k < before.last().len() {
                            assert(before.last()[k] == grown[k]);
                            assert(before.last().contains(grown[k]));
                        }
                    }
                }
            }
            if before.len() == 1 {
                assert(join(before, sep) == before[0]);
                assert(join(now, sep) == grown);
                assert(before[0] == s.drop_last());
            } else {
                assert(now.drop_last() == before.drop_last());
                assert(join(now, sep) == join(before.drop_last(), sep).push(sep) + grown);
                assert(join(before, sep) == join(before.drop_last(), sep).push(sep) + before.last());
                assert(join(now, sep) == (join(before.drop_last(), sep).push(sep) + before.last()).push(s.last()));
            }
            assert(s.drop_last().push(s.last()) == s);
        }
    }
}

/// Cuts `s` at every `sep`.
pub fn split_bytes(s: &[u8], sep: u8) -> (pieces: Vec<Vec<u8>>)
    ensures
        views(pieces@) == split(s@, sep),
{
    let mut pieces: Vec<Vec<u8>> = Vec::new();
    let mut start: usize = 0;
    let mut i: usize = 0;
    proof {
        assert(s@.take(0) == Seq::<u8>::empty());
    }
    while i < s.len()
        invariant
            start <= i <= s.len(),
            views(pieces@).push(s@.subrange(start as int, i as int)) == split(s@.take(i as int), sep),
        decreases s.len() - i,
    {
        proof {
            let prefix = s@.take(i + 1);
            assert(prefix.drop_last() == s@.take(i as int));
            assert(prefix.last() == s@[i as int]);
            let before = split(s@.take(i as int), sep);
            assert(before.last() == s@.subrange(start as int, i as int));
            assert(before.drop_last() == views(pieces@));
        }
        if s[i] == sep {
            let piece = slice_to_vec(slice_subrange(s, start, i));
            let ghost old_pieces = pieces@;
            pieces.push(piece);
            start = i + 1;
            proof {
                assert(views(pieces@) == views(old_pieces).push(piece@));
                assert(s@.subrange(start as int, i + 1) == Seq::<u8>::empty());
            }
        } else {
            proof {
                assert(s@.subrange(start as int, i + 1) == s@.subrange(start as int, i as int).push(
                    s@[i as int],
                ));
            }
        }
        i += 1;
    }
    let piece = slice_to_vec(slice_subrange(s, start, i));
    let ghost old_pieces = pieces@;
    pieces.push(piece);
    proof {
        assert(s@.take(s.len() as int) == s@);
        assert(views(pieces@) == views(old_pieces).push(piece@));
    }
    pieces
}

/// The ASCII minus sign.
pub const MINUS: u8 = 45;

/// The ASCII digit for `d`, which is below ten.
pub open spec fn digit(d: nat) -> u8 {
    (48 + d) as u8
}

/// `n` in decimal, most significant digit first, without leading zeros;
/// zero is the single digit `0`.
pub open spec fn decimal(n: nat) -> Seq<u8>
    decreases n,
{
    if n < 10 {
        seq![digit(n)]
    } else {
        decimal(n / 10).push(digit(n % 10))
    }
}

/// `i` in decimal, with a leading `-` when it is negative.
pub open spec fn signed_decimal(i: int) -> Seq<u8> {
    if i < 0 {
        seq![MINUS] + decimal((-i) as nat)
    } else {
        decimal(i as nat)
    }
}

/// Appends `n` in decimal to `out`.
pub fn push_decimal(out: &mut Vec<u8>, n: u64)
    ensures
        final(out)@ == old(out)@ + decimal(n as nat),
    decreases n,
{
    if n >= 10 {
        push_decimal(out, n / 10);
    }
    let low: u8 = (n % 10) as u8;
    out.push(48 + low);
}

/// `n` in decimal.
pub fn decimal_bytes(n: u64) -> (digits: Vec<u8>)
    ensures
        digits@ == decimal(n as nat),
{
    let mut digits: Vec<u8> = Vec::new();
    push_decimal(&mut digits, n);
    digits
}

/// `i` in decimal, with a leading `-` when it is negative.
pub fn signed_decimal_bytes(i: i32) -> (digits: Vec<u8>)
    ensures
        digits@ == signed_decimal(i as int),
{
    let mut digits: Vec<u8> = Vec::new();
    let wide: i64 = i as i64;
    if wide < 0 {
        digits.push(MINUS);
        push_decimal(&mut digits, (0 - wide) as u64);
    } else {
        push_decimal(&mut digits, wide as u64);
    }
    digits
}

/// Whether `needle` stands somewhere in `hay` as a run of neighbouring bytes.
pub open spec fn occurs_in(needle: Seq<u8>, hay: Seq<u8>) -> bool {
    exists|at: int|
        0 <= at && at + needle.len() <= hay.len() && #[trigger] hay.subrange(
            at,
            at + needle.len(),
        ) == needle
}

/// `s` with every occurrence of `pattern` replaced by `with`. Occurrences are
/// found from the left and do not overlap; what was put in is not searched
/// again. An empty pattern occurs nowhere.
pub open spec fn replaced(s: Seq<u8>, pattern: Seq<u8>, with: Seq<u8>) -> Seq<u8>
    decreases s.len(),
{
    if pattern.len() == 0 || s.len() < pattern.len() {
        s
    } else if s.take(pattern.len() as int) == pattern {
        with + replaced(s.skip(pattern.len() as int), pattern, with)
    } else {
        seq![s[0]] + replaced(s.skip(1), pattern, with)
    }
}

/// Replaces every occurrence of `pattern` in `s` by `with`.
pub fn replace_all(s: &[u8], pattern: &[u8], with: &[u8]) -> (out: Vec<u8>)
    ensures
        out@ == replaced(s@, pattern@, with@),
{
    let mut out: Vec<u8> = Vec::new();
    let mut i: usize = 0;
    proof {
        assert(s@.skip(0) == s@);
    }
    while i < s.len()
        invariant
            i <= s.len(),
            out@ + replaced(s@.skip(i as int), pattern@, with@) == replaced(s@, pattern@, with@),
        decreases s.len() - i,
    {
        let ghost rest = s@.skip(i as int);
        if pattern.len() > 0 && s.len() - i >= pattern.len() && bytes_eq(
            slice_subrange(s, i, i + pattern.len()),
            pattern,
        ) {
            proof {
                assert(rest.take(pattern.len() as int) == s@.subrange(i as int, i + pattern.len()));
                assert(rest.skip(pattern.len() as int) == s@.skip(i + pattern.len()));
                assert(out@ + (with@ + replaced(s@.skip(i + pattern.len()), pattern@, with@)) == (out@
                    + with@) + replaced(s@.skip(i + pattern.len()), pattern@, with@));
            }
            append(&mut out, with);
            i += pattern.len();
        } else {
            proof {
                assert(rest.skip(1) == s@.skip(i + 1));
                assert(rest[0] == s@[i as int]);
                if pattern.len() > 0 && rest.len() >= pattern.len() {
                    assert(rest.take(pattern.len() as int) == s@.subrange(
                        i as int,
                        i + pattern.len(),
                    ));
                } else if pattern.len() > 0 {
                    assert(replaced(rest.skip(1), pattern@, with@) == rest.skip(1));
                    assert(rest == seq![rest[0]] + rest.skip(1));
                } else {
                    assert(replaced(rest.skip(1), pattern@, with@) == rest.skip(1));
                    assert(rest == seq![rest[0]] + rest.skip(1));
                }
                assert(out@ + (seq![rest[0]] + replaced(rest.skip(1), pattern@, with@)) == out@.push(
                    s@[i as int],
                ) + replaced(s@.skip(i + 1), pattern@, with@));
            }
            out.push(s[i]);
            i += 1;
        }
    }
    proof {
        assert(s@.skip(s.len() as int) == Seq::<u8>::empty());
    }
    out
}

/// Where the pattern occurs, the replacement shows: if `pattern` is not
/// empty and stands somewhere in `s`, then `with` stands somewhere in the
/// result of the replacement.
pub proof fn lemma_replaced_holds_replacement(s: Seq<u8>, pattern: Seq<u8>, with: Seq<u8>)
    requires
        pattern.len() > 0,
        occurs_in(pattern, s),
    ensures
        occurs_in(with, replaced(s, pattern, with)),
    decreases s.len(),
{
    let at = choose|at: int|
        0 <= at && at + pattern.len() <= s.len() && #[trigger] s.subrange(at, at + pattern.len())
            == pattern;
    let out = replaced(s, pattern, with);
    if s.take(pattern.len() as int) == pattern {
        assert(out.subrange(0int, 0int + with.len()) == with);
    } else {
        assert(s.take(pattern.len() as int) == s.subrange(0int, 0int + pattern.len()));
        assert(at > 0);
        let rest = s.skip(1);
        assert(rest.subrange(at - 1, at - 1 + pattern.len()) == s.subrange(at, at + pattern.len()));
        lemma_replaced_holds_replacement(rest, pattern, with);
        let inner = replaced(rest, pattern, with);
        let k = choose|k: int|
            0 <= k && k + with.len() <= inner.len() && #[trigger] inner.subrange(k, k + with.len())
                == with;
        assert(out == seq![s[0]] + inner);
        assert(out.subrange(k + 1, k + 1 + with.len()) == inner.subrange(k, k + with.len()));
    }
}

} // verus!
