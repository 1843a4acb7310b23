//! Merges two sorted streams of possibly different types into one. When the
//! two streams hold the same key, only stream A's entry is produced and both
//! streams are advanced.

use vstd::prelude::*;
use crate::Error;
use crate::iterators::StorageIterator;
use crate::keys::{lex_lt, lex_le, key_lt, key_le, key_eq, lemma_lex_trichotomy, lemma_lex_lt_trans};

verus! {

/// Merges streams A and B; A wins ties.
pub struct TwoMergeIterator<A: StorageIterator, B: StorageIterator> {
    /// Stream A, preferred on equal keys.
    pub a: A,
    /// Stream B.
    pub b: B,
}

impl<A: StorageIterator, B: StorageIterator> TwoMergeIterator<A, B> {
    /// Creates the two-way merge.
    pub fn create(a: A, b: B) -> (r: Result<TwoMergeIterator<A, B>, Error>)
        requires
            a.inv(),
            b.inv(),
            a.spec_num_active() + b.spec_num_active() <= usize::MAX,
        ensures
            r is Ok,
            r.unwrap().a == a,
            r.unwrap().b == b,
            r.unwrap().inv(),
    {
        Ok(TwoMergeIterator { a, b })
    }

    /// Whether the output currently comes from stream A: A is valid and
    /// either B is not or A's key is at most B's.
    pub open spec fn takes_a(&self) -> bool {
        self.a.spec_valid() && (!self.b.spec_valid() || lex_le(
            self.a.spec_key(),
            self.b.spec_key(),
        ))
    }

    /// On equal keys the merge exposes A's entry.
    pub proof fn lemma_tie_prefers_a(&self)
        requires
            self.a.spec_valid(),
            self.b.spec_valid(),
            self.a.spec_key() == self.b.spec_key(),
        ensures
            self.spec_key() == self.a.spec_key(),
            self.spec_value() == self.a.spec_value(),
    {
    }
}

impl<A: StorageIterator, B: StorageIterator> StorageIterator for TwoMergeIterator<A, B> {
    open spec fn inv(&self) -> bool {
        &&& self.a.inv()
        &&& self.b.inv()
        &&& self.spec_num_active() <= usize::MAX
    }

    open spec fn spec_valid(&self) -> bool {
        self.a.spec_valid() || self.b.spec_valid()
    }

    open spec fn spec_key(&self) -> Seq<u8> {
        if self.takes_a() {
            self.a.spec_key()
        } else {
            self.b.spec_key()
        }
    }

    open spec fn spec_value(&self) -> Seq<u8> {
        if self.takes_a() {
            self.a.spec_value()
        } else {
            self.b.spec_value()
        }
    }

    open spec fn spec_rem(&self) -> nat {
        self.a.spec_rem() + self.b.spec_rem()
    }

    open spec fn spec_num_active(&self) -> nat {
        self.a.spec_num_active() + self.b.spec_num_active()
    }

    open spec fn keys_nonempty(&self) -> bool {
        self.a.keys_nonempty() && self.b.keys_nonempty()
    }

    fn key(&self) -> (k: Vec<u8>) {
        let av = self.a.is_valid();
        let bv = self.b.is_valid();
        if av && bv {
            let ka = self.a.key();
            let kb = self.b.key();
            proof {
                lemma_lex_trichotomy(ka@, kb@);
            }
            if key_le(ka.as_slice(), kb.as_slice()) {
                ka
            } else {
                kb
            }
        } else if av {
            self.a.key()
        } else {
            self.b.key()
        }
    }

    fn value(&self) -> (v: Vec<u8>) {
        let av = self.a.is_valid();
        let bv = self.b.is_valid();
        if av && bv {
            let ka = self.a.key();
            let kb = self.b.key();
            if key_le(ka.as_slice(), kb.as_slice()) {
                self.a.value()
            } else {
                self.b.value()
            }
        } else if av {
            self.a.value()
        } else {
            self.b.value()
        }
    }

    fn is_valid(&self) -> (v: bool) {
        self.a.is_valid() || self.b.is_valid()
    }

    /// Advances the stream that holds the smaller key; on equal keys both
    /// streams advance, A first, and when A's advance fails B stays put: an
    /// error on a tie leaves B untouched unless A's own advance succeeded.
    fn next(&mut self) -> (r: Result<(), Error>)
        ensures
            (r is Ok && old(self).a.spec_valid() && old(self).b.spec_valid() && old(
                self,
            ).a.spec_key() == old(self).b.spec_key()) ==> final(self).a.spec_rem() < old(
                self,
            ).a.spec_rem() && final(self).b.spec_rem() < old(self).b.spec_rem(),
            (r is Err && old(self).a.spec_valid() && old(self).b.spec_valid()
                && old(self).a.spec_key() == old(self).b.spec_key())
                ==> (final(self).b == old(self).b
                || final(self).a.spec_rem() < old(self).a.spec_rem()),
            (old(self).a.spec_valid() && (!old(self).b.spec_valid() || lex_lt(
                old(self).a.spec_key(),
                old(self).b.spec_key(),
            ))) ==> final(self).b == old(self).b,
            (old(self).b.spec_valid() && (!old(self).a.spec_valid() || lex_lt(
                old(self).b.spec_key(),
                old(self).a.spec_key(),
            ))) ==> final(self).a == old(self).a,
    {
        let av = self.a.is_valid();
        let bv = self.b.is_valid();
        let ghost ok = old(self).a.spec_key();
        let ghost okb = old(self).b.spec_key();
        if av && bv {
            let ka = self.a.key();
            let kb = self.b.key();
            proof {
                lemma_lex_trichotomy(ka@, kb@);
            }
            if key_lt(ka.as_slice(), kb.as_slice()) {
                let r = self.a.next();
                proof {
                    if r is Ok && self.spec_valid() {
                        if self.a.spec_valid() && lex_lt(self.a.spec_key(), ok) {
                            lemma_lex_lt_trans(self.a.spec_key(), ok, okb);
                        }
                    }
                }
                r
            } else if key_eq(ka.as_slice(), kb.as_slice()) {
                match self.a.next() {
                    Err(e) => Err(e),
                    Ok(()) => {
                        let r = self.b.next();
                        r
                    },
                }
            } else {
                let r = self.b.next();
                proof {
                    if r is Ok && self.spec_valid() {
                        if self.b.spec_valid() && lex_lt(self.b.spec_key(), okb) {
                            lemma_lex_lt_trans(self.b.spec_key(), okb, ok);
                        }
                    }
                }
                r
            }
        } else if av {
            self.a.next()
        } else {
            self.b.next()
        }
    }

    fn num_active_iterators(&self) -> (n: usize) {
        let na = self.a.num_active_iterators();
        let nb = self.b.num_active_iterators();
        na + nb
    }
}

} // verus!
