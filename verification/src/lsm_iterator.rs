//! The top of the iterator stack: the table-level iterator that hides
//! deletion tombstones, and the fused wrapper that turns one advance error
//! into a permanent terminal state.

use vstd::prelude::*;
use crate::Error;
use crate::iterators::StorageIterator;
use crate::keys::{lex_le, lemma_lex_lt_le_trans};

verus! {

/// The engine-level iterator: wraps a merged sorted stream and skips every
/// entry whose value is empty, which marks a deletion.
pub struct LsmIterator<I: StorageIterator> {
    /// The merged stream being filtered.
    pub inner: I,
}

impl<I: StorageIterator> LsmIterator<I> {
    /// Wraps `iter` and skips an initial run of deletion tombstones. An
    /// error can only come from advancing the stream, so construction over a
    /// stream that is finished or already stands on a live entry succeeds
    /// and wraps it unchanged.
    pub fn new(iter: I) -> (r: Result<LsmIterator<I>, Error>)
        requires
            iter.inv(),
            iter.keys_nonempty(),
        ensures
            match r {
                Ok(l) => {
                    &&& l.inv()
                    &&& (l.spec_valid() ==> l.spec_value().len() > 0)
                    &&& l.inner.spec_rem() <= iter.spec_rem()
                    &&& l.inner.spec_num_active() <= iter.spec_num_active()
                    &&& (!iter.spec_valid() ==> !l.spec_valid())
                    &&& ((iter.spec_valid() && l.spec_valid()) ==> lex_le(
                        iter.spec_key(),
                        l.spec_key(),
                    ))
                    &&& ((!iter.spec_valid() || iter.spec_value().len() > 0) ==> l.inner == iter)
                },
                Err(_) => true,
            },
            (!iter.spec_valid() || iter.spec_value().len() > 0) ==> r is Ok,
    {
        let mut l = LsmIterator { inner: iter };
        match l.skip_delete_key() {
            Ok(()) => Ok(l),
            Err(e) => Err(e),
        }
    }

    /// Advances past every entry whose value is empty. On success the stream
    /// stands on a real entry or has ended; keys never move backwards. A
    /// stream that is finished or already stands on a live entry is left
    /// untouched, so the call succeeds and repeating it changes nothing.
    pub fn skip_delete_key(&mut self) -> (r: Result<(), Error>)
        requires
            old(self).inner.inv(),
            old(self).inner.keys_nonempty(),
        ensures
            (!old(self).inner.spec_valid() || old(self).inner.spec_value().len() > 0) ==> r is Ok
                && *final(self) == *old(self),
            final(self).inner.inv(),
            final(self).inner.keys_nonempty(),
            final(self).inner.spec_rem() <= old(self).inner.spec_rem(),
            final(self).inner.spec_num_active() <= old(self).inner.spec_num_active(),
            !old(self).inner.spec_valid() ==> !final(self).inner.spec_valid(),
            r is Ok ==> (final(self).inner.spec_valid() ==> final(self).inner.spec_value().len()
                > 0),
            (r is Ok && old(self).inner.spec_valid() && final(self).inner.spec_valid()) ==> lex_le(
                old(self).inner.spec_key(),
                final(self).inner.spec_key(),
            ),
    {
        loop
            invariant
                (!old(self).inner.spec_valid() || old(self).inner.spec_value().len() > 0) ==> *self
                    == *old(self),
                self.inner.inv(),
                self.inner.keys_nonempty(),
                self.inner.spec_rem() <= old(self).inner.spec_rem(),
                self.inner.spec_num_active() <= old(self).inner.spec_num_active(),
                !old(self).inner.spec_valid() ==> !self.inner.spec_valid(),
                (old(self).inner.spec_valid() && self.inner.spec_valid()) ==> lex_le(
                    old(self).inner.spec_key(),
                    self.inner.spec_key(),
                ),
            ensures
                self.inner.spec_valid() ==> self.inner.spec_value().len() > 0,
                (!old(self).inner.spec_valid() || old(self).inner.spec_value().len() > 0) ==> *self
                    == *old(self),
            decreases self.inner.spec_rem(),
        {
            if !self.inner.is_valid() {
                break ;
            }
            let v = self.inner.value();
            if v.len() > 0 {
                break ;
            }
            let ghost between = self.inner;
            match self.inner.next() {
                Err(e) => {
                    return Err(e);
                },
                Ok(()) => {
                    proof {
                        if old(self).inner.spec_valid() && self.inner.spec_valid() {
                            if between.spec_key() != old(self).inner.spec_key() {
                                lemma_lex_lt_le_trans(
                                    old(self).inner.spec_key(),
                                    between.spec_key(),
                                    self.inner.spec_key(),
                                );
                            }
                        }
                    }
                },
            }
        }
        Ok(())
    }
}

impl<I: StorageIterator> StorageIterator for LsmIterator<I> {
    open spec fn inv(&self) -> bool {
        &&& self.inner.inv()
        &&& self.inner.keys_nonempty()
    }

    open spec fn spec_valid(&self) -> bool {
        self.inner.spec_valid()
    }

    open spec fn spec_key(&self) -> Seq<u8> {
        self.inner.spec_key()
    }

    open spec fn spec_value(&self) -> Seq<u8> {
        self.inner.spec_value()
    }

    open spec fn spec_rem(&self) -> nat {
        self.inner.spec_rem()
    }

    open spec fn spec_num_active(&self) -> nat {
        self.inner.spec_num_active()
    }

    open spec fn keys_nonempty(&self) -> bool {
        self.inner.keys_nonempty()
    }

    fn key(&self) -> (k: Vec<u8>) {
        self.inner.key()
    }

    fn value(&self) -> (v: Vec<u8>) {
        self.inner.value()
    }

    fn is_valid(&self) -> (b: bool) {
        self.inner.is_valid()
    }

    /// Advances the stream, then skips deletion tombstones: a successful
    /// advance never leaves the iterator on an entry with an empty value.
    fn next(&mut self) -> (r: Result<(), Error>)
        ensures
            r is Ok ==> (final(self).spec_valid() ==> final(self).spec_value().len() > 0),
    {
        match self.inner.next() {
            Err(e) => {
                return Err(e);
            },
            Ok(()) => {},
        }
        let ghost between = self.inner;
        let r = self.skip_delete_key();
        match r {
            Err(e) => Err(e),
            Ok(()) => {
                proof {
                    if old(self).spec_valid() && self.spec_valid() {
                        lemma_lex_lt_le_trans(
                            old(self).spec_key(),
                            between.spec_key(),
                            self.inner.spec_key(),
                        );
                    }
                }
                Ok(())
            },
        }
    }

    fn num_active_iterators(&self) -> (n: usize) {
        self.inner.num_active_iterators()
    }
}

/// A wrapper that prevents stepping an iterator past its first failure: once
/// an advance errors, the iterator reports invalid forever and every further
/// advance fails.
pub struct FusedIterator<I: StorageIterator> {
    /// The wrapped iterator.
    pub iter: I,
    /// Whether an advance has failed.
    pub has_errored: bool,
}

impl<I: StorageIterator> FusedIterator<I> {
    /// Wraps `iter`; no error has been seen yet.
    pub fn new(iter: I) -> (f: FusedIterator<I>)
        requires
            iter.inv(),
        ensures
            f.inv(),
            f.iter == iter,
            !f.has_errored,
    {
        FusedIterator { iter, has_errored: false }
    }
}

impl<I: StorageIterator> FusedIterator<I> {
    /// Once an advance has failed the iterator is sealed: it reports
    /// invalid, and by `next`'s contract every further advance returns the
    /// sealed error and leaves the state unchanged.
    pub proof fn lemma_sealed(&self)
        requires
            self.has_errored,
        ensures
            !self.spec_valid(),
    {
    }
}

impl<I: StorageIterator> StorageIterator for FusedIterator<I> {
    open spec fn inv(&self) -> bool {
        self.iter.inv()
    }

    open spec fn spec_valid(&self) -> bool {
        !self.has_errored && self.iter.spec_valid()
    }

    open spec fn spec_key(&self) -> Seq<u8> {
        self.iter.spec_key()
    }

    open spec fn spec_value(&self) -> Seq<u8> {
        self.iter.spec_value()
    }

    open spec fn spec_rem(&self) -> nat {
        self.iter.spec_rem()
    }

    open spec fn spec_num_active(&self) -> nat {
        self.iter.spec_num_active()
    }

    open spec fn keys_nonempty(&self) -> bool {
        self.iter.keys_nonempty()
    }

    fn key(&self) -> (k: Vec<u8>) {
        self.iter.key()
    }

    fn value(&self) -> (v: Vec<u8>) {
        self.iter.value()
    }

    fn is_valid(&self) -> (b: bool) {
        !self.has_errored && self.iter.is_valid()
    }

    /// After the first failed advance the iterator is sealed: it stays
    /// invalid and every further advance fails without touching the
    /// underlying iterator.
    fn next(&mut self) -> (r: Result<(), Error>)
        ensures
            old(self).has_errored ==> r == Err::<(), Error>(Error::Sealed) && *final(self) == *old(
                self,
            ),
            final(self).has_errored == (old(self).has_errored || r is Err),
            r is Err ==> !final(self).spec_valid(),
    {
        if self.has_errored {
            return Err(Error::Sealed);
        }
        match self.iter.next() {
            Ok(()) => Ok(()),
            Err(e) => {
                self.has_errored = true;
                Err(e)
            },
        }
    }

    fn num_active_iterators(&self) -> (n: usize) {
        self.iter.num_active_iterators()
    }
}

} // verus!
