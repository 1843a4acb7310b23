//! Builds a block: accumulates entries until a configured byte budget is
//! reached. The first entry is always admitted, so that a single oversized
//! entry still makes progress.

use vstd::prelude::*;
use crate::block::{Block, entry_bytes, parse_entry, lemma_parse_entry_extend, lemma_parse_entry_append};
use crate::codec::{push_u16, push_bytes};
use crate::keys::{lex_lt, lemma_lex_lt_trans, copy_bytes};

verus! {

/// Builds a block.
pub struct BlockBuilder {
    /// Offsets of each key-value entry.
    pub offsets: Vec<u16>,
    /// All serialized key-value pairs in the block.
    pub data: Vec<u8>,
    /// The byte budget for the encoded block.
    pub block_size: usize,
    /// The first key added to the block.
    pub first_key: Vec<u8>,
    /// The entries added so far, in order.
    pub entries: Ghost<Seq<(Seq<u8>, Seq<u8>)>>,
}

impl BlockBuilder {
    /// The builder's data and offsets spell out exactly the entries added:
    /// each offset points at the corresponding serialized entry, keys are
    /// non-empty, strictly increasing, and within the two-byte length budget,
    /// and any block of two or more entries fits the byte budget.
    pub open spec fn wf(&self) -> bool {
        &&& self.block_size <= 0xFFFF
        &&& self.offsets@.len() == self.entries@.len()
        &&& self.offsets@.len() <= 0xFFFF
        &&& (self.offsets@.len() == 0 <==> self.data@.len() == 0)
        &&& (forall|i: int|
            0 <= i < self.entries@.len() ==> #[trigger] parse_entry(
                self.data@,
                self.offsets@[i] as int,
            ) == Some(self.entries@[i]))
        &&& (self.entries@.len() >= 2 ==> self.data@.len() + 2 * self.offsets@.len() + 2
            <= self.block_size)
        &&& (self.entries@.len() > 0 ==> self.first_key@ == self.entries@[0].0)
        &&& (forall|i: int|
            0 <= i < self.entries@.len() ==> 1 <= (#[trigger] self.entries@[i]).0.len() <= 0xFFFF
                && self.entries@[i].1.len() <= 0xFFFF)
        &&& (forall|i: int, j: int|
            0 <= i < j < self.entries@.len() ==> #[trigger] lex_lt(
                self.entries@[i].0,
                self.entries@[j].0,
            ))
    }

    /// Whether an add of `(k, v)` is admitted: always for the first entry,
    /// otherwise exactly when the encoded block would still fit the budget.
    pub open spec fn accepts(&self, k: Seq<u8>, v: Seq<u8>) -> bool {
        self.entries@.len() == 0 || self.data@.len() + 2 * self.offsets@.len() + k.len() + v.len()
            + 8 <= self.block_size
    }

    /// Creates a new block builder with the given byte budget.
    pub fn new(block_size: usize) -> (b: BlockBuilder)
        requires
            block_size <= 0xFFFF,
        ensures
            b.wf(),
            b.entries@ == Seq::<(Seq<u8>, Seq<u8>)>::empty(),
            b.block_size == block_size,
            b.data@ == Seq::<u8>::empty(),
            b.offsets@ == Seq::<u16>::empty(),
    {
        BlockBuilder {
            offsets: Vec::new(),
            data: Vec::new(),
            block_size,
            first_key: Vec::new(),
            entries: Ghost(Seq::empty()),
        }
    }

    /// Adds a key-value pair to the block. Returns false when the block is
    /// full: a non-first entry is admitted exactly when the encoded block
    /// would still fit the byte budget. An accepted non-first entry keeps the
    /// encoded size within the budget.
    pub fn add(&mut self, key: &[u8], value: &[u8]) -> (r: bool)
        requires
            old(self).wf(),
            1 <= key@.len() <= 0xFFFF,
            value@.len() <= 0xFFFF,
            old(self).entries@.len() > 0 ==> lex_lt(old(self).entries@.last().0, key@),
        ensures
            final(self).wf(),
            final(self).block_size == old(self).block_size,
            r == old(self).accepts(key@, value@),
            r ==> final(self).entries@ == old(self).entries@.push((key@, value@)),
            r ==> final(self).data@ == old(self).data@ + entry_bytes(key@, value@),
            r ==> final(self).offsets@ == old(self).offsets@.push(old(self).data@.len() as u16),
            !r ==> *final(self) == *old(self),
            (r && old(self).entries@.len() > 0) ==> final(self).data@.len() + 2 * final(self).offsets@.len()
                + 2 <= final(self).block_size,
    {
        if self.data.len() == 0 {
            self.first_key = copy_bytes(key);
        } else {
            if self.data.len() > self.block_size {
                return false;
            }
            let size_add = 4 + key.len() + value.len() + 2;
            if self.offsets.len() * 2 + self.data.len() + size_add + 2 > self.block_size {
                return false;
            }
        }
        assert(self.data@.len() <= 0xFFFF);
        let off = self.data.len() as u16;
        self.offsets.push(off);
        let klen = key.len() as u16;
        push_u16(&mut self.data, klen);
        push_bytes(&mut self.data, key);
        let vlen = value.len() as u16;
        push_u16(&mut self.data, vlen);
        push_bytes(&mut self.data, value);
        proof {
            self.entries@ = self.entries@.push((key@, value@));
            let odata = old(self).data@;
            let oentries = old(self).entries@;
            crate::codec::lemma_le_bytes_len(key@.len(), 2);
            crate::codec::lemma_le_bytes_len(value@.len(), 2);
            assert(entry_bytes(key@, value@).len() == key@.len() + value@.len() + 4);
            assert(self.data@ =~= odata + entry_bytes(key@, value@));
            lemma_parse_entry_append(odata, key@, value@);
            assert forall|i: int| 0 <= i < self.entries@.len() implies #[trigger] parse_entry(
                self.data@,
                self.offsets@[i] as int,
            ) == Some(self.entries@[i]) by {
                if i < oentries.len() {
                    lemma_parse_entry_extend(
                        odata,
                        old(self).offsets@[i] as int,
                        entry_bytes(key@, value@),
                    );
                } else {
                    assert(self.offsets@[i] == odata.len() as u16);
                }
            }
            assert forall|i: int, j: int| 0 <= i < j < self.entries@.len() implies #[trigger] lex_lt(
                self.entries@[i].0,
                self.entries@[j].0,
            ) by {
                if j == self.entries@.len() - 1 && oentries.len() > 0 {
                    if i < oentries.len() - 1 {
                        lemma_lex_lt_trans(oentries[i].0, oentries.last().0, key@);
                    }
                }
            }
        }
        true
    }

    /// Every sequence of accepted entries that never needed the first-entry
    /// override encodes within the byte budget: when a lone entry also fits
    /// the size formula, the built block's encoding is at most `block_size`.
    pub proof fn lemma_block_size_bound(&self)
        requires
            self.wf(),
            self.entries@.len() == 1 ==> self.data@.len() + 4 <= self.block_size,
        ensures
            self.entries@.len() >= 1 ==> crate::block::spec_encode(self.data@, self.offsets@).len()
                <= self.block_size,
    {
        crate::block::lemma_offsets_bytes_props(self.offsets@);
        crate::codec::lemma_le_bytes_len(self.offsets@.len(), 2);
    }

    /// True iff no key-value pair has been added.
    pub fn is_empty(&self) -> (r: bool)
        requires
            self.wf(),
        ensures
            r == (self.entries@.len() == 0),
    {
        self.data.is_empty() || self.offsets.is_empty()
    }

    /// Finalizes the block: the entries and offsets move in unchanged.
    pub fn build(self) -> (b: Block)
        requires
            self.wf(),
        ensures
            b.data@ == self.data@,
            b.offsets@ == self.offsets@,
            b.wf(),
            b.spec_len() == self.entries@.len(),
            forall|i: int|
                0 <= i < self.entries@.len() ==> #[trigger] b.spec_entry(i) == Some(
                    self.entries@[i],
                ),
            b.spec_sorted(),
    {
        let b = Block { data: self.data, offsets: self.offsets };
        proof {
            assert forall|i: int, j: int|
                0 <= i < j < b.spec_len() implies lex_lt(
                #[trigger] b.spec_key_at(i),
                #[trigger] b.spec_key_at(j),
            ) by {
                assert(lex_lt(self.entries@[i].0, self.entries@[j].0));
            }
        }
        b
    }
}

} // verus!
