//! The block: the smallest unit of read and caching. A block holds a sorted
//! sequence of key/value entries in a flat byte buffer, a parallel array of
//! two-byte offsets into that buffer, and a trailing two-byte entry count.

pub mod builder;
pub mod iterator;

use vstd::prelude::*;
use crate::codec::{le_bytes, le_val, pow256, lemma_le_bytes_len, lemma_le_round_trip, read_u16, push_u16, push_bytes};
use crate::Error;

verus! {

/// The byte layout of one entry: key length, key, value length, value.
pub open spec fn entry_bytes(k: Seq<u8>, v: Seq<u8>) -> Seq<u8> {
    le_bytes(k.len(), 2) + k + le_bytes(v.len(), 2) + v
}

/// Interprets an entry header at `off` inside `data`; `None` when the bytes
/// there do not hold a whole entry.
pub open spec fn parse_entry(data: Seq<u8>, off: int) -> Option<(Seq<u8>, Seq<u8>)> {
    if 0 <= off && off + 2 <= data.len() {
        let klen = le_val(data.subrange(off, off + 2)) as int;
        if off + 2 + klen + 2 <= data.len() {
            let vlen = le_val(data.subrange(off + 2 + klen, off + 4 + klen)) as int;
            if off + 4 + klen + vlen <= data.len() {
                Some(
                    (
                        data.subrange(off + 2, off + 2 + klen),
                        data.subrange(off + 4 + klen, off + 4 + klen + vlen),
                    ),
                )
            } else {
                None
            }
        } else {
            None
        }
    } else {
        None
    }
}

/// An entry that parses is untouched by appending bytes after it.
pub proof fn lemma_parse_entry_extend(data: Seq<u8>, off: int, ext: Seq<u8>)
    requires
        parse_entry(data, off) is Some,
    ensures
        parse_entry(data + ext, off) == parse_entry(data, off),
{
    let full = data + ext;
    let klen = le_val(data.subrange(off, off + 2)) as int;
    assert(full.subrange(off, off + 2) =~= data.subrange(off, off + 2));
    assert(full.subrange(off + 2 + klen, off + 4 + klen) =~= data.subrange(
        off + 2 + klen,
        off + 4 + klen,
    ));
    let vlen = le_val(data.subrange(off + 2 + klen, off + 4 + klen)) as int;
    assert(full.subrange(off + 2, off + 2 + klen) =~= data.subrange(off + 2, off + 2 + klen));
    assert(full.subrange(off + 4 + klen, off + 4 + klen + vlen) =~= data.subrange(
        off + 4 + klen,
        off + 4 + klen + vlen,
    ));
}

/// An entry appended at the end of `data` parses back to itself.
pub proof fn lemma_parse_entry_append(data: Seq<u8>, k: Seq<u8>, v: Seq<u8>)
    requires
        k.len() <= 0xFFFF,
        v.len() <= 0xFFFF,
    ensures
        parse_entry(data + entry_bytes(k, v), data.len() as int) == Some((k, v)),
{
    let off = data.len() as int;
    let full = data + entry_bytes(k, v);
    lemma_le_bytes_len(k.len(), 2);
    lemma_le_bytes_len(v.len(), 2);
    assert(pow256(2) == 0x1_0000) by {
        reveal_with_fuel(pow256, 3);
    }
    assert(full.subrange(off, off + 2) =~= le_bytes(k.len(), 2));
    lemma_le_round_trip(k.len(), 2);
    let klen = k.len() as int;
    assert(full.subrange(off + 2 + klen, off + 4 + klen) =~= le_bytes(v.len(), 2));
    lemma_le_round_trip(v.len(), 2);
    assert(full.subrange(off + 2, off + 2 + klen) =~= k);
    let vlen = v.len() as int;
    assert(full.subrange(off + 4 + klen, off + 4 + klen + vlen) =~= v);
}

/// Reads the whole entry at `off`; `None` exactly when `parse_entry` says so.
pub fn read_entry(data: &[u8], off: usize) -> (r: Option<(Vec<u8>, Vec<u8>)>)
    ensures
        match r {
            Some(kv) => parse_entry(data@, off as int) == Some((kv.0@, kv.1@)),
            None => parse_entry(data@, off as int) is None,
        },
{
    let n = data.len();
    if n < 2 || off > n - 2 {
        return None;
    }
    let klen = read_u16(data, off) as usize;
    let rem = n - off - 2;
    if rem < 2 || klen > rem - 2 {
        return None;
    }
    let vlen = read_u16(data, off + 2 + klen) as usize;
    let rem2 = rem - 2 - klen;
    if vlen > rem2 {
        return None;
    }
    let key = vstd::slice::slice_to_vec(vstd::slice::slice_subrange(data, off + 2, off + 2 + klen));
    let value = vstd::slice::slice_to_vec(
        vstd::slice::slice_subrange(data, off + 4 + klen, off + 4 + klen + vlen),
    );
    Some((key, value))
}

/// The trailing offset array of the encoding: two bytes per entry.
pub open spec fn offsets_bytes(offs: Seq<u16>) -> Seq<u8>
    decreases offs.len(),
{
    if offs.len() == 0 {
        Seq::empty()
    } else {
        offsets_bytes(offs.drop_last()) + le_bytes(offs.last() as nat, 2)
    }
}

pub proof fn lemma_offsets_bytes_props(offs: Seq<u16>)
    ensures
        offsets_bytes(offs).len() == 2 * offs.len(),
        forall|i: int|
            0 <= i < offs.len() ==> #[trigger] offsets_bytes(offs).subrange(2 * i, 2 * i + 2)
                == le_bytes(offs[i] as nat, 2),
    decreases offs.len(),
{
    if offs.len() > 0 {
        let pre = offs.drop_last();
        lemma_offsets_bytes_props(pre);
        lemma_le_bytes_len(offs.last() as nat, 2);
        assert forall|i: int| 0 <= i < offs.len() implies #[trigger] offsets_bytes(offs).subrange(
            2 * i,
            2 * i + 2,
        ) == le_bytes(offs[i] as nat, 2) by {
            if i < offs.len() - 1 {
                assert(offsets_bytes(offs).subrange(2 * i, 2 * i + 2) =~= offsets_bytes(
                    pre,
                ).subrange(2 * i, 2 * i + 2));
            } else {
                assert(offsets_bytes(offs).subrange(2 * i, 2 * i + 2) =~= le_bytes(
                    offs.last() as nat,
                    2,
                ));
            }
        }
    }
}

/// The encoded form of a block: entry bytes, offset array, entry count.
pub open spec fn spec_encode(data: Seq<u8>, offs: Seq<u16>) -> Seq<u8> {
    data + offsets_bytes(offs) + le_bytes(offs.len(), 2)
}

/// Decodes an encoded block back into its entry bytes and offset array;
/// `None` exactly when the buffer is too short for its trailing count.
pub open spec fn spec_decode(bytes: Seq<u8>) -> Option<(Seq<u8>, Seq<u16>)> {
    if bytes.len() < 2 {
        None
    } else {
        let count = le_val(bytes.subrange(bytes.len() - 2, bytes.len() as int)) as int;
        if bytes.len() - 2 < 2 * count {
            None
        } else {
            let start = bytes.len() - 2 - 2 * count;
            Some(
                (
                    bytes.subrange(0, start),
                    Seq::new(
                        count as nat,
                        |i: int| le_val(bytes.subrange(start + 2 * i, start + 2 * i + 2)) as u16,
                    ),
                ),
            )
        }
    }
}

/// Decoding an encoding yields the block back, byte for byte.
pub proof fn lemma_block_round_trip(data: Seq<u8>, offs: Seq<u16>)
    requires
        offs.len() <= 0xFFFF,
    ensures
        spec_decode(spec_encode(data, offs)) == Some((data, offs)),
{
    let e = spec_encode(data, offs);
    lemma_offsets_bytes_props(offs);
    lemma_le_bytes_len(offs.len(), 2);
    assert(pow256(2) == 0x1_0000) by {
        reveal_with_fuel(pow256, 3);
    }
    assert(e.subrange(e.len() - 2, e.len() as int) =~= le_bytes(offs.len(), 2));
    lemma_le_round_trip(offs.len(), 2);
    let start = e.len() - 2 - 2 * offs.len();
    assert(start == data.len());
    assert(e.subrange(0, start as int) =~= data);
    let got = Seq::new(
        offs.len(),
        |i: int| le_val(e.subrange(start + 2 * i, start + 2 * i + 2)) as u16,
    );
    assert forall|i: int| 0 <= i < offs.len() implies got[i] == offs[i] by {
        assert(e.subrange(start + 2 * i, start + 2 * i + 2) =~= offsets_bytes(offs).subrange(
            2 * i,
            2 * i + 2,
        ));
        lemma_le_round_trip(offs[i] as nat, 2);
    }
    assert(got =~= offs);
}

/// The first and last keys of a well-formed, non-empty block are the keys of
/// its first and last entries: what the builder added first and last.
pub proof fn lemma_block_first_last(b: &Block)
    requires
        b.wf(),
        b.spec_len() > 0,
    ensures
        b.spec_first_key() == Some(b.spec_key_at(0)),
        b.spec_last_key() == Some(b.spec_key_at(b.spec_len() - 1)),
{
}

/// A block: entry bytes plus the offset of each entry.
pub struct Block {
    pub data: Vec<u8>,
    pub offsets: Vec<u16>,
}

impl Block {
    /// The parsed entry at position `i` of the offset array.
    pub open spec fn spec_entry(&self, i: int) -> Option<(Seq<u8>, Seq<u8>)> {
        parse_entry(self.data@, self.offsets@[i] as int)
    }

    /// Every offset points at a whole entry.
    pub open spec fn wf(&self) -> bool {
        forall|i: int| 0 <= i < self.offsets@.len() ==> (#[trigger] self.spec_entry(i)) is Some
    }

    /// The number of entries.
    pub open spec fn spec_len(&self) -> nat {
        self.offsets@.len()
    }

    /// The key of entry `i` (meaningful under `wf`).
    pub open spec fn spec_key_at(&self, i: int) -> Seq<u8> {
        self.spec_entry(i).unwrap().0
    }

    /// The value of entry `i` (meaningful under `wf`).
    pub open spec fn spec_value_at(&self, i: int) -> Seq<u8> {
        self.spec_entry(i).unwrap().1
    }

    /// Keys are strictly increasing across the block.
    pub open spec fn spec_sorted(&self) -> bool {
        forall|i: int, j: int|
            0 <= i < j < self.spec_len() ==> crate::keys::lex_lt(
                #[trigger] self.spec_key_at(i),
                #[trigger] self.spec_key_at(j),
            )
    }

    /// The key of the first entry, or `None` on an empty or malformed block.
    pub open spec fn spec_first_key(&self) -> Option<Seq<u8>> {
        if self.offsets@.len() == 0 {
            None
        } else {
            match self.spec_entry(0) {
                Some(kv) => Some(kv.0),
                None => None,
            }
        }
    }

    /// The key of the last entry, or `None` on an empty or malformed block.
    pub open spec fn spec_last_key(&self) -> Option<Seq<u8>> {
        if self.offsets@.len() == 0 {
            None
        } else {
            match self.spec_entry(self.offsets@.len() - 1) {
                Some(kv) => Some(kv.0),
                None => None,
            }
        }
    }

    /// Encodes the block: entry bytes, offset array, trailing entry count.
    pub fn encode(&self) -> (r: Vec<u8>)
        requires
            self.offsets@.len() <= 0xFFFF,
        ensures
            r@ == spec_encode(self.data@, self.offsets@),
    {
        let mut out: Vec<u8> = Vec::new();
        push_bytes(&mut out, self.data.as_slice());
        let mut i: usize = 0;
        proof {
            assert(offsets_bytes(self.offsets@.subrange(0, 0)) =~= Seq::<u8>::empty());
            assert(out@ =~= self.data@ + offsets_bytes(self.offsets@.subrange(0, 0)));
        }
        while i < self.offsets.len()
            invariant
                i <= self.offsets@.len(),
                self.offsets@.len() <= 0xFFFF,
                out@ == self.data@ + offsets_bytes(self.offsets@.subrange(0, i as int)),
            decreases self.offsets@.len() - i,
        {
            let off = self.offsets[i];
            push_u16(&mut out, off);
            proof {
                let pre = self.offsets@.subrange(0, i as int);
                let cur = self.offsets@.subrange(0, i + 1);
                assert(cur.drop_last() =~= pre);
                assert(cur.last() == self.offsets@[i as int]);
                assert(offsets_bytes(cur) == offsets_bytes(pre) + le_bytes(
                    self.offsets@[i as int] as nat,
                    2,
                ));
                assert(out@ =~= self.data@ + offsets_bytes(cur));
            }
            i = i + 1;
        }
        proof {
            assert(self.offsets@.subrange(0, self.offsets@.len() as int) =~= self.offsets@);
        }
        let count = self.offsets.len() as u16;
        push_u16(&mut out, count);
        proof {
            assert(out@ =~= spec_encode(self.data@, self.offsets@));
        }
        out
    }

    /// Decodes an encoded block. Fails only on truncation: a buffer shorter
    /// than its trailing count demands.
    pub fn decode(bytes: &[u8]) -> (r: Result<Block, Error>)
        ensures
            match r {
                Ok(b) => spec_decode(bytes@) == Some((b.data@, b.offsets@)),
                Err(e) => spec_decode(bytes@) is None && e == Error::Truncated,
            },
    {
        let n = bytes.len();
        if n < 2 {
            return Err(Error::Truncated);
        }
        let count = read_u16(bytes, n - 2) as usize;
        if count * 2 > n - 2 {
            return Err(Error::Truncated);
        }
        let start = n - 2 - count * 2;
        let mut offsets: Vec<u16> = Vec::new();
        let mut i: usize = 0;
        while i < count
            invariant
                i <= count,
                n == bytes@.len(),
                start + 2 * count <= n,
                offsets@.len() == i,
                forall|j: int|
                    0 <= j < i ==> #[trigger] offsets@[j] as nat == le_val(
                        bytes@.subrange(start + 2 * j, start + 2 * j + 2),
                    ),
            decreases count - i,
        {
            let off = read_u16(bytes, start + 2 * i);
            offsets.push(off);
            i = i + 1;
        }
        let data = vstd::slice::slice_to_vec(vstd::slice::slice_subrange(bytes, 0, start));
        proof {
            let d = spec_decode(bytes@);
            assert(bytes@.subrange(bytes@.len() - 2, bytes@.len() as int) =~= bytes@.subrange(
                n - 2,
                n as int,
            ));
            assert(offsets@ =~= Seq::new(
                count as nat,
                |j: int| le_val(bytes@.subrange(start + 2 * j, start + 2 * j + 2)) as u16,
            ));
        }
        Ok(Block { data, offsets })
    }

    /// The key of the first entry; `None` when the block has no entries
    /// or its first offset does not hold a whole entry.
    pub fn first_key(&self) -> (r: Option<Vec<u8>>)
        ensures
            match r {
                Some(k) => self.spec_first_key() == Some(k@),
                None => self.spec_first_key() is None,
            },
    {
        if self.offsets.len() == 0 {
            return None;
        }
        let off = self.offsets[0] as usize;
        match read_entry(self.data.as_slice(), off) {
            Some(kv) => Some(kv.0),
            None => None,
        }
    }

    /// The key of the last entry; `None` when the block has no entries
    /// or its last offset does not hold a whole entry.
    pub fn last_key(&self) -> (r: Option<Vec<u8>>)
        ensures
            match r {
                Some(k) => self.spec_last_key() == Some(k@),
                None => self.spec_last_key() is None,
            },
    {
        if self.offsets.len() == 0 {
            return None;
        }
        let off = self.offsets[self.offsets.len() - 1] as usize;
        match read_entry(self.data.as_slice(), off) {
            Some(kv) => Some(kv.0),
            None => None,
        }
    }

    /// The number of entries in the block.
    pub fn num_of_entries(&self) -> (n: usize)
        ensures
            n == self.spec_len(),
    {
        self.offsets.len()
    }
}

} // verus!
