//! Iterators over entries in the order of their keys.

pub mod merge_iterator;
pub mod two_merge_iterator;

use crate::error::LsmError;
use crate::key::rest_of;
use vstd::prelude::*;

verus! {

/// A forward iterator over entries.
///
/// What an iterator still has to give is the sequence `remaining`; it stands
/// on the first entry of that sequence and is valid as long as there is one.
pub trait StorageIterator {
    /// What holds of an iterator that can be used.
    spec fn wf(&self) -> bool;

    /// The entries that the iterator has yet to give, the current one first.
    spec fn remaining(&self) -> Seq<(Seq<u8>, Seq<u8>)>;

    /// Stepping this iterator cannot fail.
    spec fn reliable(&self) -> bool;

    /// The value of the current entry.
    fn value(&self) -> (value: &[u8])
        requires
            self.wf(),
            self.remaining().len() > 0,
        ensures
            value@ == self.remaining()[0].1,
    ;

    /// The key of the current entry.
    fn key(&self) -> (key: &[u8])
        requires
            self.wf(),
            self.remaining().len() > 0,
        ensures
            key@ == self.remaining()[0].0,
    ;

    /// Whether the iterator stands on an entry.
    fn is_valid(&self) -> (valid: bool)
        requires
            self.wf(),
        ensures
            valid == (self.remaining().len() > 0),
    ;

    /// Goes to the next entry; does nothing where the iterator is not valid.
    /// After an error the iterator is not to be used again.
    fn next(&mut self) -> (r: Result<(), LsmError>)
        requires
            old(self).wf(),
        ensures
            r is Ok ==> final(self).wf() && final(self).remaining() == rest_of(
                old(self).remaining(),
            ) && (old(self).reliable() ==> final(self).reliable()),
            old(self).reliable() ==> r is Ok,
    ;
}

} // verus!
