//! The cursor interface that blocks and the in-memory table share.

use crate::util::status::Error;
use vstd::prelude::*;

verus! {

/// Key/value pairs in the order in which a cursor meets them.
pub type Pairs = Seq<(Seq<u8>, Seq<u8>)>;

/// A cursor over key/value pairs in key order. It either stands on a pair
/// or is unpositioned.
pub trait LdbIterator {
    /// The invariant of the cursor.
    spec fn cursor_wf(&self) -> bool;

    /// The pairs from the cursor on, the one that it stands on first; none
    /// when it is unpositioned.
    spec fn remaining(&self) -> Pairs;

    /// Whether the cursor reads what `other` reads, in the same order.
    spec fn same_source(&self, other: &Self) -> bool;

    /// The pairs from the first pair on: what is before a cursor that was
    /// sent to the first pair.
    spec fn first_pairs(&self) -> Pairs;

    /// What is before a cursor that was sent to the last pair: that pair
    /// alone, or nothing where there is none.
    spec fn last_pairs(&self) -> Pairs;

    /// Whether `target` is a key that the cursor can seek.
    spec fn can_seek(&self, target: Seq<u8>) -> bool;

    /// Whether `after` is this cursor after a seek for `target`.
    spec fn sought(&self, target: Seq<u8>, after: &Self) -> bool;

    /// Whether `after` is this cursor after a step back.
    spec fn stepped_back(&self, after: &Self) -> bool;

    /// Whether the cursor met bytes that do not follow the format.
    spec fn corrupt(&self) -> bool;

    /// Whether the cursor stands on a pair.
    fn valid(&self) -> (r: bool)
        requires
            self.cursor_wf(),
        ensures
            r == (self.remaining().len() > 0),
    ;

    /// Moves to the first pair.
    fn seek_to_first(&mut self)
        requires
            old(self).cursor_wf(),
        ensures
            final(self).cursor_wf(),
            final(self).same_source(old(self)),
            final(self).remaining() == old(self).first_pairs(),
    ;

    /// Moves to the last pair.
    fn seek_to_last(&mut self)
        requires
            old(self).cursor_wf(),
        ensures
            final(self).cursor_wf(),
            final(self).same_source(old(self)),
            final(self).remaining() == old(self).last_pairs(),
    ;

    /// Moves to the first pair whose key does not sort before `target`.
    fn seek(&mut self, target: &[u8])
        requires
            old(self).cursor_wf(),
            old(self).can_seek(target@),
        ensures
            final(self).cursor_wf(),
            final(self).same_source(old(self)),
            old(self).sought(target@, final(self)),
    ;

    /// Moves to the next pair; behind the last one the cursor is
    /// unpositioned.
    fn next(&mut self)
        requires
            old(self).cursor_wf(),
            old(self).remaining().len() > 0,
        ensures
            final(self).cursor_wf(),
            final(self).same_source(old(self)),
            final(self).remaining() == old(self).remaining().drop_first(),
    ;

    /// The key of the pair that the cursor stands on.
    fn key(&self) -> (r: &[u8])
        requires
            self.cursor_wf(),
            self.remaining().len() > 0,
        ensures
            r@ == self.remaining()[0].0,
    ;

    /// The value of the pair that the cursor stands on.
    fn value(&self) -> (r: &[u8])
        requires
            self.cursor_wf(),
            self.remaining().len() > 0,
        ensures
            r@ == self.remaining()[0].1,
    ;

    /// Moves to the pair before; before the first one the cursor is
    /// unpositioned.
    fn prev(&mut self)
        requires
            old(self).cursor_wf(),
            old(self).remaining().len() > 0,
        ensures
            final(self).cursor_wf(),
            final(self).same_source(old(self)),
            old(self).stepped_back(final(self)),
    ;

    /// `Corruption` where the cursor met bytes that do not follow the
    /// format, else `Ok`.
    fn status(&self) -> (r: Result<(), Error>)
        ensures
            r == if self.corrupt() {
                Err::<(), Error>(Error::Corruption)
            } else {
                Ok::<(), Error>(())
            },
    ;
}

} // verus!
