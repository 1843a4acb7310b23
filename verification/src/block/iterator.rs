//! Positions within a block, by index or by key (lower-bound search).

use vstd::prelude::*;
use crate::block::{Block, read_entry};
use crate::keys::{lex_lt, lex_le, key_lt, lemma_lex_lt_trans, lemma_lex_trichotomy};

verus! {

/// A cursor over the entries of one block.
pub struct BlockIterator {
    /// The block being read.
    pub block: Block,
    /// The current entry index.
    pub idx: usize,
}

impl BlockIterator {
    /// Creates an iterator positioned on the first entry.
    pub fn new(block: Block) -> (it: BlockIterator)
        ensures
            it.block == block,
            it.idx == 0,
    {
        BlockIterator { block, idx: 0 }
    }

    /// Moves to the first entry.
    pub fn seek_to_first(&mut self)
        ensures
            final(self).block == old(self).block,
            final(self).idx == 0,
    {
        self.idx = 0;
    }

    /// Moves to the entry at `idx`; the iterator is invalid when `idx` is
    /// at or past the entry count.
    pub fn seek_to(&mut self, idx: usize)
        ensures
            final(self).block == old(self).block,
            final(self).idx == idx,
    {
        self.idx = idx;
    }

    /// True iff the cursor stands on an entry.
    pub fn is_valid(&self) -> (r: bool)
        ensures
            r == (self.idx < self.block.spec_len()),
    {
        self.idx < self.block.offsets.len()
    }

    /// The key of the current entry.
    pub fn key(&self) -> (k: Vec<u8>)
        requires
            self.block.wf(),
            self.idx < self.block.spec_len(),
        ensures
            k@ == self.block.spec_key_at(self.idx as int),
    {
        let off = self.block.offsets[self.idx] as usize;
        match read_entry(self.block.data.as_slice(), off) {
            Some(kv) => kv.0,
            None => {
                proof {
                    assert(self.block.spec_entry(self.idx as int) is Some);
                    assert(false);
                }
                Vec::new()
            },
        }
    }

    /// The value of the current entry.
    pub fn value(&self) -> (v: Vec<u8>)
        requires
            self.block.wf(),
            self.idx < self.block.spec_len(),
        ensures
            v@ == self.block.spec_value_at(self.idx as int),
    {
        let off = self.block.offsets[self.idx] as usize;
        match read_entry(self.block.data.as_slice(), off) {
            Some(kv) => kv.1,
            None => {
                proof {
                    assert(self.block.spec_entry(self.idx as int) is Some);
                    assert(false);
                }
                Vec::new()
            },
        }
    }

    /// Advances to the next entry.
    pub fn next(&mut self)
        requires
            old(self).idx < old(self).block.spec_len(),
        ensures
            final(self).block == old(self).block,
            final(self).idx == old(self).idx + 1,
    {
        let n = self.block.offsets.len();
        assert(self.idx < n);
        self.idx = self.idx + 1;
    }

    /// Positions the cursor at the smallest index whose key is at least
    /// `key`; past the end when every key is smaller.
    pub fn seek_to_key(&mut self, key: &[u8])
        requires
            old(self).block.wf(),
            old(self).block.spec_sorted(),
        ensures
            final(self).block == old(self).block,
            final(self).idx <= final(self).block.spec_len(),
            forall|j: int|
                0 <= j < final(self).idx ==> lex_lt(
                    #[trigger] final(self).block.spec_key_at(j),
                    key@,
                ),
            final(self).idx < final(self).block.spec_len() ==> lex_le(
                key@,
                final(self).block.spec_key_at(final(self).idx as int),
            ),
    {
        let n = self.block.offsets.len();
        let mut lo: usize = 0;
        let mut hi: usize = n;
        while lo < hi
            invariant
                lo <= hi <= n,
                n == self.block.spec_len(),
                self.block.wf(),
                self.block.spec_sorted(),
                forall|j: int| 0 <= j < lo ==> lex_lt(#[trigger] self.block.spec_key_at(j), key@),
                forall|j: int|
                    hi <= j < n ==> !lex_lt(#[trigger] self.block.spec_key_at(j), key@),
            decreases hi - lo,
        {
            let mid = lo + (hi - lo) / 2;
            let off = self.block.offsets[mid] as usize;
            let mid_key: Vec<u8> = match read_entry(self.block.data.as_slice(), off) {
                Some(kv) => kv.0,
                None => {
                    proof {
                        assert(self.block.spec_entry(mid as int) is Some);
                        assert(false);
                    }
                    Vec::new()
                },
            };
            if key_lt(mid_key.as_slice(), key) {
                lo = mid + 1;
                proof {
                    assert forall|j: int|
                        0 <= j < lo implies lex_lt(#[trigger] self.block.spec_key_at(j), key@) by {
                        if j < mid {
                            lemma_lex_lt_trans(
                                self.block.spec_key_at(j),
                                self.block.spec_key_at(mid as int),
                                key@,
                            );
                        }
                    }
                }
            } else {
                hi = mid;
                proof {
                    assert forall|j: int|
                        hi <= j < n implies !lex_lt(#[trigger] self.block.spec_key_at(j), key@) by {
                        if j > mid && lex_lt(self.block.spec_key_at(j), key@) {
                            lemma_lex_lt_trans(
                                self.block.spec_key_at(mid as int),
                                self.block.spec_key_at(j),
                                key@,
                            );
                        }
                    }
                }
            }
        }
        self.idx = lo;
        proof {
            if lo < n {
                lemma_lex_trichotomy(key@, self.block.spec_key_at(lo as int));
            }
        }
    }
}

} // verus!
