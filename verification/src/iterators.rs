//! The sorted-stream abstraction: a cursor over a stream of key/value
//! entries whose keys strictly increase, with a validity check, an advance
//! that may fail, and a count of active underlying sources.

pub mod merge_iterator;
pub mod two_merge_iterator;

use vstd::prelude::*;
use crate::Error;
use crate::keys::{lex_lt, copy_bytes};

verus! {

/// A cursor over a sorted key stream.
///
/// `inv` is the implementation's well-formedness and is preserved by every
/// operation. While the cursor is valid it stands on an entry, read by `key`
/// and `value`. A successful advance from a valid position strictly
/// increases the key and strictly decreases `spec_rem`, a bound on the
/// remaining advances; an advance never revives an invalid cursor.
/// `keys_nonempty` says that every key the stream yields is non-empty, and
/// is kept by advancing.
pub trait StorageIterator: Sized {
    /// Well-formedness of the cursor.
    spec fn inv(&self) -> bool;

    /// Whether the cursor stands on an entry.
    spec fn spec_valid(&self) -> bool;

    /// The key under the cursor.
    spec fn spec_key(&self) -> Seq<u8>;

    /// The value under the cursor.
    spec fn spec_value(&self) -> Seq<u8>;

    /// An upper bound on how many successful advances remain.
    spec fn spec_rem(&self) -> nat;

    /// How many underlying sources are active.
    spec fn spec_num_active(&self) -> nat;

    /// Every key this stream yields is non-empty.
    spec fn keys_nonempty(&self) -> bool;

    /// The key under the cursor; only defined while the cursor is valid.
    fn key(&self) -> (k: Vec<u8>)
        requires
            self.inv(),
            self.spec_valid(),
        ensures
            k@ == self.spec_key(),
            self.keys_nonempty() ==> k@.len() > 0,
    ;

    /// The value under the cursor; only defined while the cursor is valid.
    fn value(&self) -> (v: Vec<u8>)
        requires
            self.inv(),
            self.spec_valid(),
        ensures
            v@ == self.spec_value(),
    ;

    /// Whether the cursor stands on an entry.
    fn is_valid(&self) -> (b: bool)
        requires
            self.inv(),
        ensures
            b == self.spec_valid(),
    ;

    /// Advances the cursor. An error leaves the stream's remaining bound no
    /// larger; success from a valid position strictly increases the key.
    fn next(&mut self) -> (r: Result<(), Error>)
        requires
            old(self).inv(),
        ensures
            final(self).inv(),
            old(self).keys_nonempty() ==> final(self).keys_nonempty(),
            !old(self).spec_valid() ==> !final(self).spec_valid(),
            final(self).spec_rem() <= old(self).spec_rem(),
            final(self).spec_num_active() <= old(self).spec_num_active(),
            (r is Ok && old(self).spec_valid()) ==> final(self).spec_rem() < old(
                self,
            ).spec_rem(),
            (r is Ok && old(self).spec_valid() && final(self).spec_valid()) ==> lex_lt(
                old(self).spec_key(),
                final(self).spec_key(),
            ),
    ;

    /// The number of active underlying sources.
    fn num_active_iterators(&self) -> (n: usize)
        requires
            self.inv(),
        ensures
            n == self.spec_num_active(),
    ;
}

/// A sorted in-memory stream: the leaf of the iterator algebra. It can be
/// told to fail one advance, standing in for a source whose step errors.
pub struct VecIterator {
    /// The entries, in strictly increasing key order.
    pub entries: Vec<(Vec<u8>, Vec<u8>)>,
    /// The cursor.
    pub pos: usize,
    /// When set, the advance made at this position fails.
    pub fail_on: Option<usize>,
}

impl VecIterator {
    /// Creates a stream over `entries`.
    pub fn new(entries: Vec<(Vec<u8>, Vec<u8>)>) -> (it: VecIterator)
        requires
            forall|i: int, j: int|
                0 <= i < j < entries@.len() ==> lex_lt(
                    (#[trigger] entries@[i]).0@,
                    (#[trigger] entries@[j]).0@,
                ),
            forall|i: int| 0 <= i < entries@.len() ==> (#[trigger] entries@[i]).0@.len() > 0,
        ensures
            it.inv(),
            it.keys_nonempty(),
            it.entries == entries,
            it.pos == 0,
            it.fail_on is None,
    {
        VecIterator { entries, pos: 0, fail_on: None }
    }

    /// Creates a stream over `entries` whose advance at position `fail_pos`
    /// fails once asked.
    pub fn new_failing(entries: Vec<(Vec<u8>, Vec<u8>)>, fail_pos: usize) -> (it: VecIterator)
        requires
            forall|i: int, j: int|
                0 <= i < j < entries@.len() ==> lex_lt(
                    (#[trigger] entries@[i]).0@,
                    (#[trigger] entries@[j]).0@,
                ),
            forall|i: int| 0 <= i < entries@.len() ==> (#[trigger] entries@[i]).0@.len() > 0,
        ensures
            it.inv(),
            it.keys_nonempty(),
            it.entries == entries,
            it.pos == 0,
            it.fail_on == Some(fail_pos),
    {
        VecIterator { entries, pos: 0, fail_on: Some(fail_pos) }
    }
}

impl StorageIterator for VecIterator {
    open spec fn inv(&self) -> bool {
        &&& self.pos <= self.entries@.len()
        &&& (forall|i: int, j: int|
            0 <= i < j < self.entries@.len() ==> lex_lt(
                (#[trigger] self.entries@[i]).0@,
                (#[trigger] self.entries@[j]).0@,
            ))
    }

    open spec fn spec_valid(&self) -> bool {
        self.pos < self.entries@.len()
    }

    open spec fn spec_key(&self) -> Seq<u8> {
        self.entries@[self.pos as int].0@
    }

    open spec fn spec_value(&self) -> Seq<u8> {
        self.entries@[self.pos as int].1@
    }

    open spec fn spec_rem(&self) -> nat {
        (self.entries@.len() - self.pos) as nat
    }

    open spec fn spec_num_active(&self) -> nat {
        1
    }

    open spec fn keys_nonempty(&self) -> bool {
        forall|i: int| 0 <= i < self.entries@.len() ==> (#[trigger] self.entries@[i]).0@.len() > 0
    }

    fn key(&self) -> (k: Vec<u8>) {
        copy_bytes(self.entries[self.pos].0.as_slice())
    }

    fn value(&self) -> (v: Vec<u8>) {
        copy_bytes(self.entries[self.pos].1.as_slice())
    }

    fn is_valid(&self) -> (b: bool) {
        self.pos < self.entries.len()
    }

    /// Advances by one entry; fails exactly on the advance that `fail_on`
    /// names, leaving the cursor where it stood.
    fn next(&mut self) -> (r: Result<(), Error>)
        ensures
            final(self).entries == old(self).entries,
            final(self).fail_on == old(self).fail_on,
            r is Err <==> (old(self).spec_valid() && old(self).fail_on == Some(old(self).pos)),
            r is Err ==> final(self).pos == old(self).pos,
            r is Ok ==> final(self).pos as int == (if old(self).spec_valid() {
                old(self).pos as int + 1
            } else {
                old(self).pos as int
            }),
    {
        if self.pos >= self.entries.len() {
            return Ok(());
        }
        match self.fail_on {
            Some(f) => {
                if f == self.pos {
                    return Err(Error::Step);
                }
            },
            None => {},
        }
        self.pos = self.pos + 1;
        Ok(())
    }

    fn num_active_iterators(&self) -> (n: usize) {
        1
    }
}

} // verus!
