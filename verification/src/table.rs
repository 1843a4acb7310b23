//! The sorted-string table: a byte image of concatenated encoded blocks, a
//! trailing index of per-block metadata, and a final four-byte offset that
//! locates that index.

pub mod builder;

use vstd::prelude::*;
use crate::block::{Block, spec_decode};
use crate::codec::{le_bytes, le_val, pow256, lemma_le_bytes_len, lemma_le_val_bound, lemma_le_round_trip, read_le, push_le};
use crate::keys::{lex_lt, lex_le, key_lt, key_le, copy_bytes, lemma_lex_le_lt_trans, lemma_lex_lt_trans};
use crate::Error;

verus! {

/// Index record for one block: its byte offset in the table and its first
/// and last keys.
pub struct BlockMeta {
    /// Offset of this data block.
    pub offset: usize,
    /// The first key of the data block.
    pub first_key: Vec<u8>,
    /// The last key of the data block.
    pub last_key: Vec<u8>,
}

/// The mathematical content of one index record.
pub ghost struct BlockMetaView {
    pub offset: int,
    pub first_key: Seq<u8>,
    pub last_key: Seq<u8>,
}

impl View for BlockMeta {
    type V = BlockMetaView;

    open spec fn view(&self) -> BlockMetaView {
        BlockMetaView {
            offset: self.offset as int,
            first_key: self.first_key@,
            last_key: self.last_key@,
        }
    }
}

/// The views of a sequence of index records.
pub open spec fn metas_view(s: Seq<BlockMeta>) -> Seq<BlockMetaView> {
    s.map_values(|m: BlockMeta| m@)
}

/// The byte layout of one index record: offset, first-key length and bytes,
/// last-key length and bytes, every integer eight bytes little-endian.
pub open spec fn record_bytes(m: BlockMetaView) -> Seq<u8> {
    le_bytes(m.offset as nat, 8) + le_bytes(m.first_key.len(), 8) + m.first_key + le_bytes(
        m.last_key.len(),
        8,
    ) + m.last_key
}

/// The byte layout of the whole index region.
pub open spec fn metas_bytes(s: Seq<BlockMetaView>) -> Seq<u8>
    decreases s.len(),
{
    if s.len() == 0 {
        Seq::empty()
    } else {
        metas_bytes(s.drop_last()) + record_bytes(s.last())
    }
}

/// The index records are ordered: within a record the first key is at most
/// the last, and each record's last key and offset lie strictly below the
/// next record's first key and offset.
pub open spec fn metas_sorted(s: Seq<BlockMetaView>) -> bool {
    &&& (forall|i: int| 0 <= i < s.len() ==> lex_le(#[trigger] s[i].first_key, s[i].last_key))
    &&& (forall|i: int|
        0 <= i < s.len() - 1 ==> lex_lt(#[trigger] s[i].last_key, s[i + 1].first_key))
    &&& (forall|i: int| 0 <= i < s.len() - 1 ==> (#[trigger] s[i].offset) < s[i + 1].offset)
}

/// In an ordered index the first keys are strictly increasing.
pub proof fn lemma_metas_first_sorted(s: Seq<BlockMetaView>, i: int, j: int)
    requires
        metas_sorted(s),
        0 <= i < j < s.len(),
    ensures
        lex_lt(s[i].first_key, s[j].first_key),
    decreases j - i,
{
    if j == i + 1 {
        lemma_lex_le_lt_trans(s[i].first_key, s[i].last_key, s[j].first_key);
    } else {
        lemma_metas_first_sorted(s, i, j - 1);
        lemma_metas_first_sorted(s, j - 1, j);
        lemma_lex_lt_trans(s[i].first_key, s[j - 1].first_key, s[j].first_key);
    }
}

/// Decodes an index region; `None` when a record runs past the buffer or an
/// offset does not fit the machine.
pub open spec fn spec_decode_metas(b: Seq<u8>) -> Option<Seq<BlockMetaView>>
    decreases b.len(),
{
    if b.len() == 0 {
        Some(Seq::empty())
    } else if b.len() < 24 {
        None
    } else {
        let off = le_val(b.subrange(0, 8));
        let klen = le_val(b.subrange(8, 16)) as int;
        if off > usize::MAX {
            None
        } else if 24 + klen > b.len() {
            None
        } else {
            let fk = b.subrange(16, 16 + klen);
            let llen = le_val(b.subrange(16 + klen, 24 + klen)) as int;
            if 24 + klen + llen > b.len() {
                None
            } else {
                let lk = b.subrange(24 + klen, 24 + klen + llen);
                match spec_decode_metas(b.subrange(24 + klen + llen, b.len() as int)) {
                    Some(s) => Some(
                        seq![BlockMetaView { offset: off as int, first_key: fk, last_key: lk }] + s,
                    ),
                    None => None,
                }
            }
        }
    }
}

/// The record's numbers fit the machine: its offset and key lengths.
pub open spec fn meta_bounded(m: BlockMetaView) -> bool {
    &&& 0 <= m.offset <= usize::MAX
    &&& m.first_key.len() <= usize::MAX
    &&& m.last_key.len() <= usize::MAX
}

proof fn lemma_metas_bytes_first(s: Seq<BlockMetaView>)
    requires
        s.len() > 0,
    ensures
        metas_bytes(s) == record_bytes(s[0]) + metas_bytes(s.subrange(1, s.len() as int)),
    decreases s.len(),
{
    if s.len() == 1 {
        assert(s.drop_last() =~= Seq::<BlockMetaView>::empty());
        assert(s.subrange(1, s.len() as int) =~= Seq::<BlockMetaView>::empty());
        assert(metas_bytes(s) =~= record_bytes(s[0]) + metas_bytes(s.subrange(1, s.len() as int)));
    } else {
        lemma_metas_bytes_first(s.drop_last());
        let tail = s.subrange(1, s.len() as int);
        assert(tail.drop_last() =~= s.drop_last().subrange(1, s.len() - 1));
        assert(tail.last() == s.last());
        assert(s.drop_last()[0] == s[0]);
        assert(record_bytes(s[0]) + (metas_bytes(tail.drop_last()) + record_bytes(s.last()))
            =~= (record_bytes(s[0]) + metas_bytes(tail.drop_last())) + record_bytes(s.last()));
    }
}

/// Decoding an encoded index region yields the records back: the general
/// round trip behind reopening a table.
pub proof fn lemma_metas_round_trip(s: Seq<BlockMetaView>)
    requires
        forall|i: int| 0 <= i < s.len() ==> meta_bounded(#[trigger] s[i]),
    ensures
        spec_decode_metas(metas_bytes(s)) == Some(s),
    decreases s.len(),
{
    if s.len() == 0 {
        assert(metas_bytes(s) =~= Seq::<u8>::empty());
        assert(spec_decode_metas(metas_bytes(s)) == Some(Seq::<BlockMetaView>::empty()));
        assert(Seq::<BlockMetaView>::empty() =~= s);
    } else {
        let m = s[0];
        let b = metas_bytes(s);
        lemma_metas_bytes_first(s);
        let tail = s.subrange(1, s.len() as int);
        let klen = m.first_key.len() as int;
        let llen = m.last_key.len() as int;
        lemma_le_bytes_len(m.offset as nat, 8);
        lemma_le_bytes_len(m.first_key.len(), 8);
        lemma_le_bytes_len(m.last_key.len(), 8);
        assert(pow256(8) == 0x1_0000_0000_0000_0000) by {
            reveal_with_fuel(pow256, 9);
        }
        assert(usize::MAX < pow256(8));
        assert(b.subrange(0, 8) =~= le_bytes(m.offset as nat, 8));
        lemma_le_round_trip(m.offset as nat, 8);
        assert(b.subrange(8, 16) =~= le_bytes(m.first_key.len(), 8));
        lemma_le_round_trip(m.first_key.len(), 8);
        assert(b.subrange(16, 16 + klen) =~= m.first_key);
        assert(b.subrange(16 + klen, 24 + klen) =~= le_bytes(m.last_key.len(), 8));
        lemma_le_round_trip(m.last_key.len(), 8);
        assert(b.subrange(24 + klen, 24 + klen + llen) =~= m.last_key);
        assert(b.subrange(24 + klen + llen, b.len() as int) =~= metas_bytes(tail));
        lemma_metas_round_trip(tail);
        assert(seq![BlockMetaView { offset: m.offset, first_key: m.first_key, last_key: m.last_key }]
            + tail =~= s);
    }
}

/// A table image laid out as block region, index region and trailer parses
/// back to its block-region length and its index records: what the builder
/// writes, opening reads.
pub proof fn lemma_table_parse_round_trip(data: Seq<u8>, s: Seq<BlockMetaView>)
    requires
        data.len() <= u32::MAX,
        forall|i: int| 0 <= i < s.len() ==> meta_bounded(#[trigger] s[i]),
    ensures
        spec_table_parse(data + metas_bytes(s) + le_bytes(data.len(), 4)) == Some(
            (data.len() as int, s),
        ),
{
    let img = data + metas_bytes(s) + le_bytes(data.len(), 4);
    lemma_le_bytes_len(data.len(), 4);
    assert(pow256(4) == 0x1_0000_0000) by {
        reveal_with_fuel(pow256, 5);
    }
    assert(img.subrange(img.len() - 4, img.len() as int) =~= le_bytes(data.len(), 4));
    lemma_le_round_trip(data.len(), 4);
    assert(img.subrange(data.len() as int, img.len() - 4) =~= metas_bytes(s));
    lemma_metas_round_trip(s);
}

impl BlockMeta {
    /// Appends the index region for `block_meta` to `buf`.
    pub fn encode_block_meta(block_meta: &Vec<BlockMeta>, buf: &mut Vec<u8>)
        ensures
            final(buf)@ == old(buf)@ + metas_bytes(metas_view(block_meta@)),
    {
        let ghost views = metas_view(block_meta@);
        let mut i: usize = 0;
        proof {
            assert(metas_bytes(views.subrange(0, 0)) =~= Seq::<u8>::empty());
            assert(buf@ =~= old(buf)@ + metas_bytes(views.subrange(0, 0)));
            assert(pow256(8) == 0x1_0000_0000_0000_0000) by {
                reveal_with_fuel(pow256, 9);
            }
        }
        while i < block_meta.len()
            invariant
                i <= block_meta@.len(),
                views == metas_view(block_meta@),
                views.len() == block_meta@.len(),
                buf@ == old(buf)@ + metas_bytes(views.subrange(0, i as int)),
                pow256(8) == 0x1_0000_0000_0000_0000,
            decreases block_meta@.len() - i,
        {
            let m = &block_meta[i];
            push_le(buf, m.offset as u64, 8);
            push_le(buf, m.first_key.len() as u64, 8);
            crate::codec::push_bytes(buf, m.first_key.as_slice());
            push_le(buf, m.last_key.len() as u64, 8);
            crate::codec::push_bytes(buf, m.last_key.as_slice());
            proof {
                let pre = views.subrange(0, i as int);
                let cur = views.subrange(0, i + 1);
                assert(cur.drop_last() =~= pre);
                assert(cur.last() == views[i as int]);
                assert(metas_bytes(cur) == metas_bytes(pre) + record_bytes(views[i as int]));
                assert(buf@ =~= old(buf)@ + metas_bytes(cur));
            }
            i = i + 1;
        }
        proof {
            assert(views.subrange(0, views.len() as int) =~= views);
        }
    }

    /// Decodes an index region. Fails exactly when a record runs past the
    /// buffer or an offset does not fit the machine.
    pub fn decode_block_meta(buf: &[u8]) -> (r: Result<Vec<BlockMeta>, Error>)
        ensures
            match r {
                Ok(v) => spec_decode_metas(buf@) == Some(metas_view(v@)),
                Err(e) => spec_decode_metas(buf@) is None && e == Error::Truncated,
            },
    {
        let n = buf.len();
        let mut pos: usize = 0;
        let mut out: Vec<BlockMeta> = Vec::new();
        proof {
            assert(metas_view(out@) =~= Seq::<BlockMetaView>::empty());
            assert(buf@.subrange(0, n as int) =~= buf@);
            if let Some(s) = spec_decode_metas(buf@) {
                assert(metas_view(out@) + s =~= s);
            }
        }
        while pos < n
            invariant
                pos <= n,
                n == buf@.len(),
                match spec_decode_metas(buf@.subrange(pos as int, n as int)) {
                    Some(s) => spec_decode_metas(buf@) == Some(metas_view(out@) + s),
                    None => spec_decode_metas(buf@) is None,
                },
            decreases n - pos,
        {
            let ghost sfx = buf@.subrange(pos as int, n as int);
            let rem = n - pos;
            if rem < 24 {
                return Err(Error::Truncated);
            }
            let off64 = read_le(buf, pos, 8);
            let klen64 = read_le(buf, pos + 8, 8);
            proof {
                assert(sfx.subrange(0, 8) =~= buf@.subrange(pos as int, pos + 8));
                assert(sfx.subrange(8, 16) =~= buf@.subrange(pos + 8, pos + 16));
            }
            if off64 > usize::MAX as u64 {
                return Err(Error::Truncated);
            }
            if klen64 > (rem - 24) as u64 {
                return Err(Error::Truncated);
            }
            let klen = klen64 as usize;
            let fk = vstd::slice::slice_to_vec(
                vstd::slice::slice_subrange(buf, pos + 16, pos + 16 + klen),
            );
            let llen64 = read_le(buf, pos + 16 + klen, 8);
            proof {
                assert(sfx.subrange(16, 16 + klen as int) =~= buf@.subrange(
                    pos + 16,
                    pos + 16 + klen as int,
                ));
                assert(sfx.subrange(16 + klen as int, 24 + klen as int) =~= buf@.subrange(
                    pos + 16 + klen as int,
                    pos + 24 + klen as int,
                ));
            }
            if llen64 > (rem - 24 - klen) as u64 {
                return Err(Error::Truncated);
            }
            let llen = llen64 as usize;
            let lk = vstd::slice::slice_to_vec(
                vstd::slice::slice_subrange(buf, pos + 24 + klen, pos + 24 + klen + llen),
            );
            let meta = BlockMeta { offset: off64 as usize, first_key: fk, last_key: lk };
            proof {
                assert(sfx.subrange(24 + klen as int, 24 + klen as int + llen as int)
                    =~= buf@.subrange(pos + 24 + klen as int, pos + 24 + klen as int + llen as int));
                let ghost rest = sfx.subrange(24 + klen as int + llen as int, sfx.len() as int);
                assert(rest =~= buf@.subrange(pos + 24 + klen + llen, n as int));
                assert(spec_decode_metas(sfx) == match spec_decode_metas(rest) {
                    Some(s) => Some(seq![meta@] + s),
                    None => None::<Seq<BlockMetaView>>,
                });
            }
            let ghost old_out = out@;
            out.push(meta);
            pos = pos + 24 + klen + llen;
            proof {
                assert(metas_view(out@) =~= metas_view(old_out).push(meta@));
                match spec_decode_metas(buf@.subrange(pos as int, n as int)) {
                    Some(s) => {
                        assert(metas_view(old_out) + (seq![meta@] + s) =~= metas_view(out@) + s);
                    },
                    None => {},
                }
            }
        }
        proof {
            assert(buf@.subrange(pos as int, n as int) =~= Seq::<u8>::empty());
            assert(metas_view(out@) + Seq::<BlockMetaView>::empty() =~= metas_view(out@));
        }
        Ok(out)
    }
}

/// Parses the trailer of a table image: the last four bytes locate the index
/// region, which is decoded; `None` when the buffer is too short, the offset
/// lies out of range, or the index does not decode.
pub open spec fn spec_table_parse(bytes: Seq<u8>) -> Option<(int, Seq<BlockMetaView>)> {
    if bytes.len() < 4 {
        None
    } else {
        let moff = le_val(bytes.subrange(bytes.len() - 4, bytes.len() as int)) as int;
        if moff > bytes.len() - 4 {
            None
        } else {
            match spec_decode_metas(bytes.subrange(moff, bytes.len() - 4)) {
                Some(s) => Some((moff, s)),
                None => None,
            }
        }
    }
}

/// An immutable sorted-string table held as its byte image plus the decoded
/// index; a metadata-only table has no bytes.
pub struct SsTable {
    /// The whole table image; `None` for a metadata-only table.
    pub bytes: Option<Vec<u8>>,
    /// The decoded index records, in block order.
    pub block_meta: Vec<BlockMeta>,
    /// Where the index region starts inside `bytes`.
    pub block_meta_offset: usize,
    /// The table's identifier.
    pub id: usize,
    /// The first key of the table, empty when there are no blocks.
    pub first_key: Vec<u8>,
    /// The last key of the table, empty when there are no blocks.
    pub last_key: Vec<u8>,
    /// The byte size of the table image.
    pub size: u64,
    /// The largest timestamp stored in the table; reserved, always zero here.
    pub max_ts: u64,
}

impl SsTable {
    /// The index records are ordered as the format demands.
    pub open spec fn wf(&self) -> bool {
        metas_sorted(metas_view(self.block_meta@))
    }

    /// Opens a table from its byte image: reads the trailer, decodes the
    /// index, and checks its ordering. Fails exactly when the trailer or
    /// index is truncated or out of range, or the index is not ordered.
    pub fn open(id: usize, bytes: Vec<u8>) -> (r: Result<SsTable, Error>)
        ensures
            match r {
                Ok(t) => {
                    &&& spec_table_parse(bytes@) is Some
                    &&& metas_view(t.block_meta@) == spec_table_parse(bytes@).unwrap().1
                    &&& t.wf()
                    &&& t.block_meta_offset == spec_table_parse(bytes@).unwrap().0
                    &&& t.bytes is Some
                    &&& t.bytes.unwrap()@ == bytes@
                    &&& t.id == id
                    &&& t.max_ts == 0
                    &&& t.size == bytes@.len()
                    &&& t.first_key@ == (if metas_view(t.block_meta@).len() > 0 {
                        metas_view(t.block_meta@)[0].first_key
                    } else {
                        Seq::<u8>::empty()
                    })
                    &&& t.last_key@ == (if metas_view(t.block_meta@).len() > 0 {
                        metas_view(t.block_meta@).last().last_key
                    } else {
                        Seq::<u8>::empty()
                    })
                },
                Err(e) => {
                    &&& e == Error::Truncated
                    &&& (spec_table_parse(bytes@) is None || !metas_sorted(
                        spec_table_parse(bytes@).unwrap().1,
                    ))
                },
            },
    {
        let n = bytes.len();
        if n < 4 {
            return Err(Error::Truncated);
        }
        let moff64 = read_le(bytes.as_slice(), n - 4, 4);
        proof {
            lemma_le_val_bound(bytes@.subrange(n - 4, n as int));
            assert(pow256(4) == 0x1_0000_0000) by {
                reveal_with_fuel(pow256, 5);
            }
        }
        if moff64 > (n - 4) as u64 {
            return Err(Error::Truncated);
        }
        let moff = moff64 as usize;
        let meta_slice = vstd::slice::slice_subrange(bytes.as_slice(), moff, n - 4);
        let block_meta = match BlockMeta::decode_block_meta(meta_slice) {
            Ok(v) => v,
            Err(e) => {
                return Err(e);
            },
        };
        let ghost views = metas_view(block_meta@);
        proof {
            assert(bytes@.subrange(bytes@.len() - 4, bytes@.len() as int) =~= bytes@.subrange(
                n - 4,
                n as int,
            ));
            assert(meta_slice@ =~= bytes@.subrange(moff as int, bytes@.len() - 4));
            assert(spec_table_parse(bytes@) == Some((moff as int, views)));
        }
        // check the ordering that the format promises
        let mut i: usize = 0;
        while i < block_meta.len()
            invariant
                i <= block_meta@.len(),
                views == metas_view(block_meta@),
                views.len() == block_meta@.len(),
                spec_table_parse(bytes@) == Some((moff as int, views)),
                forall|j: int|
                    0 <= j < i ==> lex_le(#[trigger] views[j].first_key, views[j].last_key),
                forall|j: int|
                    0 <= j < i - 1 ==> lex_lt(#[trigger] views[j].last_key, views[j + 1].first_key),
                forall|j: int| 0 <= j < i - 1 ==> (#[trigger] views[j].offset) < views[j + 1].offset,
            decreases block_meta@.len() - i,
        {
            let m = &block_meta[i];
            if !key_le(m.first_key.as_slice(), m.last_key.as_slice()) {
                proof {
                    assert(!lex_le(views[i as int].first_key, views[i as int].last_key));
                    assert(!metas_sorted(views));
                }
                return Err(Error::Truncated);
            }
            if i > 0 {
                let p = &block_meta[i - 1];
                if !key_lt(p.last_key.as_slice(), m.first_key.as_slice()) {
                    proof {
                        assert(!lex_lt(views[i - 1].last_key, views[i as int].first_key));
                        assert(!metas_sorted(views));
                    }
                    return Err(Error::Truncated);
                }
                if p.offset >= m.offset {
                    proof {
                        assert(!(views[i - 1].offset < views[i as int].offset));
                        assert(!metas_sorted(views));
                    }
                    return Err(Error::Truncated);
                }
            }
            i = i + 1;
        }
        let first_key: Vec<u8> = if block_meta.len() > 0 {
            copy_bytes(block_meta[0].first_key.as_slice())
        } else {
            Vec::new()
        };
        let last_key: Vec<u8> = if block_meta.len() > 0 {
            copy_bytes(block_meta[block_meta.len() - 1].last_key.as_slice())
        } else {
            Vec::new()
        };
        let size = n as u64;
        Ok(
            SsTable {
                bytes: Some(bytes),
                block_meta,
                block_meta_offset: moff,
                id,
                first_key,
                last_key,
                size,
                max_ts: 0,
            },
        )
    }

    /// Creates a metadata-only table: it answers key and size queries but
    /// holds no bytes, so reading a block from it fails.
    pub fn create_meta_only(id: usize, file_size: u64, first_key: Vec<u8>, last_key: Vec<u8>) -> (t:
        SsTable)
        ensures
            t.bytes is None,
            t.block_meta@.len() == 0,
            t.block_meta_offset == 0,
            t.id == id,
            t.size == file_size,
            t.max_ts == 0,
            t.first_key == first_key,
            t.last_key == last_key,
            t.wf(),
    {
        SsTable {
            bytes: None,
            block_meta: Vec::new(),
            block_meta_offset: 0,
            id,
            first_key,
            last_key,
            size: file_size,
            max_ts: 0,
        }
    }

    /// What reading block `i` yields: the decoded block between this record's
    /// offset and the next record's (or the index region for the last block).
    pub open spec fn spec_read_block(&self, i: int) -> Result<(Seq<u8>, Seq<u16>), Error> {
        match self.bytes {
            None => Err(Error::MissingFile),
            Some(b) => {
                if i >= self.block_meta@.len() {
                    Ok((Seq::empty(), Seq::empty()))
                } else {
                    let start = self.block_meta@[i]@.offset;
                    let end = if i + 1 < self.block_meta@.len() {
                        self.block_meta@[i + 1]@.offset
                    } else {
                        self.block_meta_offset as int
                    };
                    if start <= end && end <= b@.len() {
                        match spec_decode(b@.subrange(start, end)) {
                            Some(dv) => Ok(dv),
                            None => Err(Error::Truncated),
                        }
                    } else {
                        Err(Error::Truncated)
                    }
                }
            },
        }
    }

    /// Reads and decodes one block from the table image. An index past the
    /// last block yields an empty block; a metadata-only table fails.
    pub fn read_block(&self, block_idx: usize) -> (r: Result<Block, Error>)
        ensures
            match r {
                Ok(b) => self.spec_read_block(block_idx as int) == Ok::<_, Error>(
                    (b.data@, b.offsets@),
                ),
                Err(e) => self.spec_read_block(block_idx as int) == Err::<(Seq<u8>, Seq<u16>), _>(
                    e,
                ),
            },
    {
        let b: &Vec<u8> = match &self.bytes {
            None => {
                return Err(Error::MissingFile);
            },
            Some(b) => b,
        };
        if block_idx >= self.block_meta.len() {
            let empty = Block { data: Vec::new(), offsets: Vec::new() };
            return Ok(empty);
        }
        let start = self.block_meta[block_idx].offset;
        let end = if block_idx + 1 < self.block_meta.len() {
            self.block_meta[block_idx + 1].offset
        } else {
            self.block_meta_offset
        };
        if !(start <= end && end <= b.len()) {
            return Err(Error::Truncated);
        }
        match Block::decode(vstd::slice::slice_subrange(b.as_slice(), start, end)) {
            Ok(blk) => Ok(blk),
            Err(e) => Err(e),
        }
    }

    /// The index of the block that may contain `key`: the number of blocks
    /// whose first key lies strictly before `key`. Zero when `key` is below
    /// every first key; when nonzero, the previous block's first key is at
    /// most `key`.
    pub fn find_block_idx(&self, key: &[u8]) -> (r: usize)
        requires
            self.wf(),
        ensures
            r <= self.block_meta@.len(),
            forall|j: int|
                0 <= j < r ==> lex_lt(#[trigger] metas_view(self.block_meta@)[j].first_key, key@),
            r < self.block_meta@.len() ==> !lex_lt(
                metas_view(self.block_meta@)[r as int].first_key,
                key@,
            ),
    {
        let ghost views = metas_view(self.block_meta@);
        let n = self.block_meta.len();
        let mut lo: usize = 0;
        let mut hi: usize = n;
        while lo < hi
            invariant
                lo <= hi <= n,
                n == self.block_meta@.len(),
                views == metas_view(self.block_meta@),
                views.len() == n,
                metas_sorted(views),
                forall|j: int| 0 <= j < lo ==> lex_lt(#[trigger] views[j].first_key, key@),
                forall|j: int| hi <= j < n ==> !lex_lt(#[trigger] views[j].first_key, key@),
            decreases hi - lo,
        {
            let mid = lo + (hi - lo) / 2;
            let mk = &self.block_meta[mid].first_key;
            if key_lt(mk.as_slice(), key) {
                lo = mid + 1;
                proof {
                    assert forall|j: int| 0 <= j < lo implies lex_lt(
                        #[trigger] views[j].first_key,
                        key@,
                    ) by {
                        if j < mid {
                            lemma_metas_first_sorted(views, j, mid as int);
                            lemma_lex_lt_trans(
                                views[j].first_key,
                                views[mid as int].first_key,
                                key@,
                            );
                        }
                    }
                }
            } else {
                hi = mid;
                proof {
                    assert forall|j: int| hi <= j < n implies !lex_lt(
                        #[trigger] views[j].first_key,
                        key@,
                    ) by {
                        if j > mid && lex_lt(views[j].first_key, key@) {
                            lemma_metas_first_sorted(views, mid as int, j);
                            lemma_lex_lt_trans(
                                views[mid as int].first_key,
                                views[j].first_key,
                                key@,
                            );
                        }
                    }
                }
            }
        }
        lo
    }

    /// The number of data blocks.
    pub fn num_of_blocks(&self) -> (n: usize)
        ensures
            n == self.block_meta@.len(),
    {
        self.block_meta.len()
    }

    /// The first key of the table.
    pub fn first_key(&self) -> (k: &Vec<u8>)
        ensures
            k == self.first_key,
    {
        &self.first_key
    }

    /// The last key of the table.
    pub fn last_key(&self) -> (k: &Vec<u8>)
        ensures
            k == self.last_key,
    {
        &self.last_key
    }

    /// The byte size of the table image.
    pub fn table_size(&self) -> (s: u64)
        ensures
            s == self.size,
    {
        self.size
    }

    /// The table's identifier.
    pub fn sst_id(&self) -> (i: usize)
        ensures
            i == self.id,
    {
        self.id
    }

    /// The largest timestamp stored in the table.
    pub fn max_ts(&self) -> (t: u64)
        ensures
            t == self.max_ts,
    {
        self.max_ts
    }
}

} // verus!
