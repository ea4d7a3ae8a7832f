//! Response headers: a mapping from name to value that keeps the order in
//! which names were first given, so that a response always serialises the
//! same way.

use vstd::prelude::*;
use vstd::slice::slice_to_vec;
use crate::text::append;
use crate::text::bytes_eq;
use crate::text::CR;
use crate::text::LF;
use crate::text::SPACE;

verus! {

/// The colon between a header's name and its value.
pub const COLON: u8 = 58;

/// A header as it is spoken of in contracts: its name and its value.
pub type Entry = (Seq<u8>, Seq<u8>);

/// No name is held twice.
pub open spec fn names_distinct(entries: Seq<Entry>) -> bool {
    forall|i: int, j: int|
        0 <= i < j < entries.len() ==> (#[trigger] entries[i]).0 != (#[trigger] entries[j]).0
}

/// Whether `name` has a value.
pub open spec fn has_name(entries: Seq<Entry>, name: Seq<u8>) -> bool {
    exists|i: int| 0 <= i < entries.len() && (#[trigger] entries[i]).0 == name
}

/// Where `name` stands, if it has a value.
pub open spec fn position_of(entries: Seq<Entry>, name: Seq<u8>) -> int {
    choose|i: int| 0 <= i < entries.len() && (#[trigger] entries[i]).0 == name
}

/// The value of `name`, if it has one.
pub open spec fn value_of(entries: Seq<Entry>, name: Seq<u8>) -> Option<Seq<u8>> {
    if has_name(entries, name) {
        Some(entries[position_of(entries, name)].1)
    } else {
        None
    }
}

/// The headers after `name` was given `value`: a name that is already held
/// keeps its place and gets the new value, a new name goes to the end.
pub open spec fn inserted(entries: Seq<Entry>, name: Seq<u8>, value: Seq<u8>) -> Seq<Entry> {
    if has_name(entries, name) {
        entries.update(position_of(entries, name), (name, value))
    } else {
        entries.push((name, value))
    }
}

/// One header on the wire: name, colon, space, value, end of line.
pub open spec fn header_line(entry: Entry) -> Seq<u8> {
    entry.0 + seq![COLON, SPACE] + entry.1 + seq![CR, LF]
}

/// All headers on the wire, one line each, in the order they are held.
pub open spec fn header_block(entries: Seq<Entry>) -> Seq<u8> {
    entries.map_values(|entry: Entry| header_line(entry)).flatten()
}

/// The headers of a response.
#[derive(Debug, PartialEq, Eq)]
pub struct Headers {
    entries: Vec<(Vec<u8>, Vec<u8>)>,
}

impl View for Headers {
    type V = Seq<Entry>;

    closed spec fn view(&self) -> Seq<Entry> {
        held(self.entries@)
    }
}

/// What a vector of entries holds.
spec fn held(entries: Seq<(Vec<u8>, Vec<u8>)>) -> Seq<Entry> {
    Seq::new(entries.len(), |i: int| (entries[i].0@, entries[i].1@))
}

impl Headers {
    #[verifier::type_invariant]
    spec fn each_name_once(&self) -> bool {
        names_distinct(self@)
    }

    /// No headers.
    pub fn new() -> (headers: Headers)
        ensures
            headers@ == Seq::<Entry>::empty(),
    {
        let headers = Headers { entries: Vec::new() };
        assert(headers@ == Seq::<Entry>::empty());
        headers
    }

    /// How many names have a value.
    pub fn len(&self) -> (n: usize)
        ensures
            n == self@.len(),
            names_distinct(self@),
    {
        proof {
            use_type_invariant(self);
        }
        self.entries.len()
    }

    /// Where `name` stands among the entries.
    fn find(&self, name: &[u8]) -> (at: Option<usize>)
        ensures
            names_distinct(self@),
            match at {
                Some(i) => has_name(self@, name@) && i == position_of(self@, name@) && i
                    < self@.len(),
                None => !has_name(self@, name@),
            },
    {
        proof {
            use_type_invariant(self);
        }
        let mut i: usize = 0;
        while i < self.entries.len()
            invariant
                i <= self.entries.len(),
                names_distinct(self@),
                forall|k: int| 0 <= k < i ==> (#[trigger] self@[k]).0 != name@,
            decreases self.entries.len() - i,
        {
            if bytes_eq(self.entries[i].0.as_slice(), name) {
                proof {
                    assert(self@[i as int].0 == name@);
                    let chosen = position_of(self@, name@);
                    assert(self@[chosen].0 == name@);
                    if chosen != i {
                        if chosen < i {
                            assert(self@[chosen].0 != self@[i as int].0);
                        } else {
                            assert(self@[i as int].0 != self@[chosen].0);
                        }
                    }
                }
                return Some(i);
            }
            i += 1;
        }
        None
    }

    /// The value of `name`, if it has one.
    pub fn get(&self, name: &[u8]) -> (value: Option<&[u8]>)
        ensures
            match value {
                Some(v) => value_of(self@, name@) == Some(v@),
                None => value_of(self@, name@) is None,
            },
    {
        match self.find(name) {
            Some(i) => Some(self.entries[i].1.as_slice()),
            None => None,
        }
    }

    /// Gives `name` the value `value` and returns the value it had before.
    pub fn insert(&mut self, name: Vec<u8>, value: Vec<u8>) -> (previous: Option<Vec<u8>>)
        ensures
            final(self)@ == inserted(old(self)@, name@, value@),
            names_distinct(final(self)@),
            match previous {
                Some(v) => value_of(old(self)@, name@) == Some(v@),
                None => value_of(old(self)@, name@) is None,
            },
    {
        let ghost before = self@;
        proof {
            use_type_invariant(&*self);
            lemma_inserted_keeps_names_distinct(before, name@, value@);
        }
        let found = self.find(name.as_slice());
        let ghost new_entry = (name@, value@);
        // The entries are taken out, changed, and put back.
        let mut entries: Vec<(Vec<u8>, Vec<u8>)> = Vec::new();
        std::mem::swap(&mut entries, &mut self.entries);
        let previous = match found {
            Some(i) => {
                let had = slice_to_vec(entries[i].1.as_slice());
                entries.set(i, (name, value));
                Some(had)
            },
            None => {
                entries.push((name, value));
                None
            },
        };
        proof {
            match found {
                Some(i) => {
                    assert(held(entries@) == before.update(i as int, new_entry));
                },
                None => {
                    assert(held(entries@) == before.push(new_entry));
                },
            }
        }
        self.entries = entries;
        previous
    }

    /// Appends the headers to `out` as they go on the wire.
    pub fn write_to(&self, out: &mut Vec<u8>)
        ensures
            final(out)@ == old(out)@ + header_block(self@),
    {
        let ghost lines = self@.map_values(|entry: Entry| header_line(entry));
        let mut i: usize = 0;
        proof {
            assert(lines.take(0) == Seq::<Seq<u8>>::empty());
            assert(old(out)@ + lines.take(0).flatten() == old(out)@);
        }
        while i < self.entries.len()
            invariant
                i <= self.entries.len(),
                self.entries@.len() == self@.len(),
                lines == self@.map_values(|entry: Entry| header_line(entry)),
                out@ == old(out)@ + lines.take(i as int).flatten(),
            decreases self.entries.len() - i,
        {
            let ghost start = out@;
            append(out, self.entries[i].0.as_slice());
            out.push(COLON);
            out.push(SPACE);
            append(out, self.entries[i].1.as_slice());
            out.push(CR);
            out.push(LF);
            proof {
                assert(out@ == start + header_line(self@[i as int]));
                assert(lines[i as int] == header_line(self@[i as int]));
                assert(lines.take(i + 1) == lines.take(i as int).push(lines[i as int]));
                lines.take(i as int).lemma_flatten_push(lines[i as int]);
            }
            i += 1;
        }
        proof {
            assert(lines.take(self.entries.len() as int) == lines);
        }
    }
}

/// Giving a name a value keeps every name held once.
pub proof fn lemma_inserted_keeps_names_distinct(
    entries: Seq<Entry>,
    name: Seq<u8>,
    value: Seq<u8>,
)
    requires
        names_distinct(entries),
    ensures
        names_distinct(inserted(entries, name, value)),
{
    let after = inserted(entries, name, value);
    assert forall|i: int, j: int| 0 <= i < j < after.len() implies (#[trigger] after[i]).0 != (
    #[trigger] after[j]).0 by {
        if has_name(entries, name) {
            let at = position_of(entries, name);
            assert(entries[at].0 == name);
            assert(after[i].0 == entries[i].0);
            assert(after[j].0 == entries[j].0);
        } else {
            if j == entries.len() {
                assert(after[i] == entries[i]);
                assert(entries[i].0 != name);
            } else {
                assert(after[i] == entries[i]);
                assert(after[j] == entries[j]);
            }
        }
    }
}

/// What was given can be read back, and no other name is touched: after
/// `name` got `value`, it has that value, and every other name has what it
/// had before.
pub proof fn lemma_inserted_value(entries: Seq<Entry>, name: Seq<u8>, value: Seq<u8>)
    requires
        names_distinct(entries),
    ensures
        value_of(inserted(entries, name, value), name) == Some(value),
        forall|other: Seq<u8>|
            other != name ==> #[trigger] value_of(inserted(entries, name, value), other)
                == value_of(entries, other),
{
    let after = inserted(entries, name, value);
    lemma_inserted_keeps_names_distinct(entries, name, value);
    let at = if has_name(entries, name) {
        position_of(entries, name)
    } else {
        entries.len() as int
    };
    assert(after[at] == (name, value));
    lemma_value_at(after, at);
    assert forall|other: Seq<u8>| other != name implies #[trigger] value_of(after, other)
        == value_of(entries, other) by {
        if has_name(entries, other) {
            let k = position_of(entries, other);
            assert(entries[k].0 == other);
            assert(after[k] == entries[k]);
            lemma_value_at(after, k);
        } else {
            if has_name(after, other) {
                let k = position_of(after, other);
                assert(after[k].0 == other);
                assert(k != at);
                assert(after[k] == entries[k]);
                assert(entries[k].0 == other);
            }
        }
    }
}

/// With every name held once, the value of the name at a position is the
/// value at that position.
pub proof fn lemma_value_at(entries: Seq<Entry>, at: int)
    requires
        names_distinct(entries),
        0 <= at < entries.len(),
    ensures
        value_of(entries, entries[at].0) == Some(entries[at].1),
{
    let name = entries[at].0;
    assert(has_name(entries, name));
    let chosen = position_of(entries, name);
    if chosen < at {
        assert(entries[chosen].0 != entries[at].0);
    } else if at < chosen {
        assert(entries[at].0 != entries[chosen].0);
    }
}

} // verus!
