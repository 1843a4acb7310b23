//! Builds a sorted-string table: streams entries through a rolling block
//! builder, records per-block metadata, and lays out the final byte image.

use vstd::prelude::*;
use crate::block::builder::BlockBuilder;
use crate::block::spec_encode;
use crate::codec::{le_bytes, pow256, push_le, push_bytes, lemma_le_bytes_len};
use crate::keys::{lex_lt, lex_le, copy_bytes, lemma_lex_lt_trans, lemma_lex_lt_le_trans};
use crate::table::{BlockMeta, BlockMetaView, SsTable, metas_view, metas_bytes, metas_sorted};

verus! {

/// Builds a sorted-string table from key-value pairs presented in strictly
/// increasing key order.
pub struct SsTableBuilder {
    /// The block being filled.
    pub builder: BlockBuilder,
    /// The first key added to the table.
    pub first_key: Vec<u8>,
    /// The last key added to the table.
    pub last_key: Vec<u8>,
    /// The encodings of all finished blocks, concatenated.
    pub data: Vec<u8>,
    /// One index record per finished block.
    pub meta: Vec<BlockMeta>,
    /// The byte budget of each block.
    pub block_size: usize,
}

impl SsTableBuilder {
    /// The finished blocks and the pending block hold the added entries in
    /// strictly increasing key order: index records are ordered among
    /// themselves and every pending entry comes after them, and the tracked
    /// first and last keys are those of the added entries.
    pub open spec fn wf(&self) -> bool {
        let views = metas_view(self.meta@);
        let pending = self.builder.entries@;
        &&& self.builder.wf()
        &&& self.builder.block_size == self.block_size
        &&& self.block_size <= 0xFFFF
        &&& (forall|i: int|
            0 <= i < views.len() ==> lex_le(#[trigger] views[i].first_key, views[i].last_key))
        &&& (forall|i: int| 0 <= i < views.len() ==> (#[trigger] views[i].first_key).len() >= 1)
        &&& (forall|i: int, j: int|
            0 <= i < j < views.len() ==> lex_lt(
                (#[trigger] views[i]).last_key,
                (#[trigger] views[j]).first_key,
            ))
        &&& (forall|i: int, j: int|
            0 <= i < j < views.len() ==> (#[trigger] views[i]).offset
                < (#[trigger] views[j]).offset)
        &&& (forall|i: int| 0 <= i < views.len() ==> (#[trigger] views[i]).offset < self.data@.len())
        &&& (views.len() > 0 && pending.len() > 0 ==> lex_lt(views.last().last_key, pending[0].0))
        &&& (views.len() > 0 ==> self.first_key@ == views[0].first_key)
        &&& (views.len() == 0 && pending.len() > 0 ==> self.first_key@ == pending[0].0)
        &&& (pending.len() > 0 ==> self.last_key@ == pending.last().0)
        &&& (pending.len() == 0 && views.len() > 0 ==> self.last_key@ == views.last().last_key)
        &&& (views.len() == 0 && pending.len() == 0 ==> self.first_key@.len() == 0
            && self.last_key@.len() == 0)
    }

    /// Whether any entry has been added.
    pub open spec fn spec_has_entries(&self) -> bool {
        self.meta@.len() > 0 || self.builder.entries@.len() > 0
    }

    /// The index records after the pending block is flushed; a pending block
    /// with no entries adds no record.
    pub open spec fn spec_final_meta(&self) -> Seq<BlockMetaView> {
        if self.builder.entries@.len() == 0 {
            metas_view(self.meta@)
        } else {
            metas_view(self.meta@).push(
                BlockMetaView {
                    offset: self.data@.len() as int,
                    first_key: self.builder.entries@[0].0,
                    last_key: self.builder.entries@.last().0,
                },
            )
        }
    }

    /// The block region after the pending block is flushed.
    pub open spec fn spec_final_data(&self) -> Seq<u8> {
        if self.builder.entries@.len() == 0 {
            self.data@
        } else {
            self.data@ + spec_encode(self.builder.data@, self.builder.offsets@)
        }
    }

    /// Creates a builder with the given per-block byte budget.
    pub fn new(block_size: usize) -> (b: SsTableBuilder)
        requires
            block_size <= 0xFFFF,
        ensures
            b.wf(),
            !b.spec_has_entries(),
            b.block_size == block_size,
            b.data@ == Seq::<u8>::empty(),
            b.meta@ == Seq::<BlockMeta>::empty(),
            b.builder.entries@ == Seq::<(Seq<u8>, Seq<u8>)>::empty(),
    {
        let b = SsTableBuilder {
            builder: BlockBuilder::new(block_size),
            first_key: Vec::new(),
            last_key: Vec::new(),
            data: Vec::new(),
            meta: Vec::new(),
            block_size,
        };
        proof {
            assert(metas_view(b.meta@) =~= Seq::<BlockMetaView>::empty());
        }
        b
    }

    /// Finalizes the pending block: records its index entry and appends its
    /// encoding to the block region. A pending block with no entries is left
    /// alone, so no index record for an empty block is ever emitted.
    pub fn split_new_block(&mut self)
        requires
            old(self).wf(),
        ensures
            final(self).wf(),
            final(self).block_size == old(self).block_size,
            final(self).first_key@ == old(self).first_key@,
            final(self).last_key@ == old(self).last_key@,
            final(self).builder.entries@ == Seq::<(Seq<u8>, Seq<u8>)>::empty(),
            final(self).data@ == old(self).spec_final_data(),
            metas_view(final(self).meta@) == old(self).spec_final_meta(),
            final(self).spec_has_entries() == old(self).spec_has_entries(),
    {
        if self.builder.is_empty() {
            proof {
                assert(self.builder.entries@ =~= Seq::<(Seq<u8>, Seq<u8>)>::empty());
            }
            return ;
        }
        let mut taken = BlockBuilder::new(self.block_size);
        core::mem::swap(&mut taken, &mut self.builder);
        let ghost entries = taken.entries@;
        let old_block = taken.build();
        let offset = self.data.len();
        let fk: Vec<u8> = match old_block.first_key() {
            Some(k) => k,
            None => {
                proof {
                    assert(old_block.spec_entry(0) is Some);
                    assert(false);
                }
                Vec::new()
            },
        };
        let lk: Vec<u8> = match old_block.last_key() {
            Some(k) => k,
            None => {
                proof {
                    assert(old_block.spec_entry(old_block.offsets@.len() - 1) is Some);
                    assert(false);
                }
                Vec::new()
            },
        };
        proof {
            assert(fk@ == entries[0].0);
            assert(lk@ == entries.last().0);
        }
        let meta = BlockMeta { offset, first_key: fk, last_key: lk };
        let ghost old_views = metas_view(old(self).meta@);
        self.meta.push(meta);
        let encoded = old_block.encode();
        push_bytes(&mut self.data, encoded.as_slice());
        proof {
            let views = metas_view(self.meta@);
            assert(views =~= old_views.push(meta@));
            crate::block::lemma_offsets_bytes_props(old_block.offsets@);
            lemma_le_bytes_len(old_block.offsets@.len(), 2);
            assert(encoded@.len() >= 2);
            assert forall|i: int, j: int| 0 <= i < j < views.len() implies lex_lt(
                (#[trigger] views[i]).last_key,
                (#[trigger] views[j]).first_key,
            ) by {
                if j == views.len() - 1 && old_views.len() > 0 {
                    if i < old_views.len() - 1 {
                        // chain through the previously last record
                        let k = old_views.len() - 1;
                        lemma_lex_lt_le_trans(
                            old_views[i].last_key,
                            old_views[k].first_key,
                            old_views[k].last_key,
                        );
                        lemma_lex_lt_trans(old_views[i].last_key, old_views[k].last_key, fk@);
                    }
                }
            }
            assert(self.first_key@ == views[0].first_key);
            assert(self.last_key@ == views.last().last_key);
            assert(metas_view(self.meta@) =~= old(self).spec_final_meta());
        }
    }

    /// Adds a key-value pair. When the pending block rejects it, that block
    /// is finalized and the pair opens a fresh block, which always admits it.
    pub fn add(&mut self, key: &[u8], value: &[u8])
        requires
            old(self).wf(),
            1 <= key@.len() <= 0xFFFF,
            value@.len() <= 0xFFFF,
            old(self).spec_has_entries() ==> lex_lt(old(self).last_key@, key@),
        ensures
            final(self).wf(),
            final(self).block_size == old(self).block_size,
            final(self).spec_has_entries(),
            final(self).last_key@ == key@,
            final(self).first_key@ == (if old(self).spec_has_entries() {
                old(self).first_key@
            } else {
                key@
            }),
            if old(self).builder.accepts(key@, value@) {
                final(self).meta@ == old(self).meta@ && final(self).data@ == old(self).data@
                    && final(self).builder.entries@ == old(self).builder.entries@.push(
                    (key@, value@),
                )
            } else {
                metas_view(final(self).meta@) == old(self).spec_final_meta() && final(self).data@
                    == old(self).spec_final_data() && final(self).builder.entries@ == seq![
                    (key@, value@),
                ]
            },
    {
        let had_entries = self.meta.len() > 0 || !self.builder.is_empty();
        let ok = self.builder.add(key, value);
        if !ok {
            self.split_new_block();
            let ok2 = self.builder.add(key, value);
            assert(ok2);
            proof {
                assert(self.builder.entries@ =~= seq![(key@, value@)]);
            }
        }
        if !had_entries {
            self.first_key = copy_bytes(key);
        }
        self.last_key = copy_bytes(key);
    }

    /// The size of the block region so far; the pending block and the index
    /// region are not counted.
    pub fn estimated_size(&self) -> (s: usize)
        ensures
            s == self.data@.len(),
    {
        self.data.len()
    }

    /// A finished table image parses back to its own index: the byte image
    /// that `build` lays out opens to the block-region length and the index
    /// records of this builder.
    pub proof fn lemma_built_table_reopens(&self)
        requires
            self.wf(),
            self.spec_final_data().len() <= u32::MAX,
        ensures
            crate::table::spec_table_parse(
                self.spec_final_data() + metas_bytes(self.spec_final_meta()) + le_bytes(
                    self.spec_final_data().len(),
                    4,
                ),
            ) == Some((self.spec_final_data().len() as int, self.spec_final_meta())),
    {
        let views = self.spec_final_meta();
        assert forall|i: int| 0 <= i < views.len() implies crate::table::meta_bounded(
            #[trigger] views[i],
        ) by {
            if i < metas_view(self.meta@).len() {
                vstd::std_specs::vec::axiom_spec_len(&self.meta@[i].first_key);
                vstd::std_specs::vec::axiom_spec_len(&self.meta@[i].last_key);
            } else {
                vstd::std_specs::vec::axiom_spec_len(&self.data);
            }
        }
        crate::table::lemma_table_parse_round_trip(self.spec_final_data(), views);
    }

    /// Finalizes the table: flushes the pending block, appends the index
    /// region and the four-byte offset that locates it, and returns the
    /// table over that byte image.
    pub fn build(self, id: usize) -> (t: SsTable)
        requires
            self.wf(),
            self.spec_final_data().len() <= u32::MAX,
        ensures
            t.wf(),
            t.id == id,
            t.max_ts == 0,
            t.bytes is Some,
            t.bytes.unwrap()@ == self.spec_final_data() + metas_bytes(self.spec_final_meta())
                + le_bytes(self.spec_final_data().len(), 4),
            metas_view(t.block_meta@) == self.spec_final_meta(),
            t.block_meta_offset == self.spec_final_data().len(),
            t.size == t.bytes.unwrap()@.len(),
            t.first_key@ == (if self.spec_final_meta().len() > 0 {
                self.spec_final_meta()[0].first_key
            } else {
                Seq::<u8>::empty()
            }),
            t.last_key@ == (if self.spec_final_meta().len() > 0 {
                self.spec_final_meta().last().last_key
            } else {
                Seq::<u8>::empty()
            }),
    {
        let mut b = self;
        b.split_new_block();
        let block_meta_offset = b.data.len();
        let mut bytes = Vec::new();
        core::mem::swap(&mut bytes, &mut b.data);
        let first_key: Vec<u8> = if b.meta.len() > 0 {
            copy_bytes(b.meta[0].first_key.as_slice())
        } else {
            Vec::new()
        };
        let last_key: Vec<u8> = if b.meta.len() > 0 {
            copy_bytes(b.meta[b.meta.len() - 1].last_key.as_slice())
        } else {
            Vec::new()
        };
        BlockMeta::encode_block_meta(&b.meta, &mut bytes);
        proof {
            assert(pow256(4) == 0x1_0000_0000) by {
                reveal_with_fuel(pow256, 5);
            }
        }
        push_le(&mut bytes, block_meta_offset as u64, 4);
        let size = bytes.len() as u64;
        let t = SsTable {
            bytes: Some(bytes),
            block_meta: b.meta,
            block_meta_offset,
            id,
            first_key,
            last_key,
            size,
            max_ts: 0,
        };
        proof {
            assert(t.bytes.unwrap()@ =~= self.spec_final_data() + metas_bytes(
                self.spec_final_meta(),
            ) + le_bytes(self.spec_final_data().len(), 4));
        }
        t
    }
}

} // verus!
