//! The in-memory log: an ordered sequence of UTF-8 entries, each held as its
//! byte encoding.

use vstd::prelude::*;
use vstd::utf8::valid_utf8;

verus! {

/// A sequence of entries is well formed when the entry count and every
/// entry's byte length fit the wire format's `u32` fields and every entry is
/// valid UTF-8.
pub open spec fn wf_entries(entries: Seq<Seq<u8>>) -> bool {
    &&& entries.len() <= u32::MAX
    &&& forall|i: int|
        0 <= i < entries.len() ==> (#[trigger] entries[i]).len() <= u32::MAX && valid_utf8(
            entries[i],
        )
}

/// An ordered log of opaque text entries. Order is significant, duplicates
/// are allowed, and entries are only ever appended.
#[derive(Debug)]
pub struct Log {
    entries: Vec<Vec<u8>>,
}

impl View for Log {
    type V = Seq<Seq<u8>>;

    closed spec fn view(&self) -> Seq<Seq<u8>> {
        self.entries.deep_view()
    }
}

impl Log {
    /// Well-formedness of the log's entries; see [`wf_entries`].
    pub open spec fn wf(&self) -> bool {
        wf_entries(self@)
    }

    /// The empty log.
    pub fn new() -> (log: Log)
        ensures
            log@ =~= Seq::<Seq<u8>>::empty(),
            log.wf(),
    {
        Log { entries: Vec::new() }
    }

    /// The number of entries.
    pub fn len(&self) -> (n: usize)
        ensures
            n == self@.len(),
    {
        self.entries.len()
    }

    /// The entry at position `i`, as its UTF-8 bytes.
    pub fn entry(&self, i: usize) -> (e: &Vec<u8>)
        requires
            i < self@.len(),
        ensures
            e@ == self@[i as int],
    {
        &self.entries[i]
    }

    /// Appends one entry at the end; every prior entry keeps its position.
    pub fn push_entry(&mut self, entry: Vec<u8>)
        requires
            old(self).wf(),
            old(self)@.len() < u32::MAX,
            entry@.len() <= u32::MAX,
            valid_utf8(entry@),
        ensures
            final(self)@ == old(self)@.push(entry@),
            final(self).wf(),
    {
        self.entries.push(entry);
        proof {
            assert(self.entries.deep_view() =~~= old(self).entries.deep_view().push(entry@));
        }
    }
}

} // verus!
