//! Merges any number of sorted streams of one type. When the same key occurs
//! in several sources, the source with the smallest creation index wins and
//! the others are advanced past that key.

use vstd::prelude::*;
use crate::Error;
use crate::iterators::StorageIterator;
use crate::keys::{lex_lt, key_lt, key_eq, lemma_lex_lt_trans, lemma_lex_trichotomy};

verus! {

/// One source with its creation index; the smaller index wins ties.
pub struct HeapWrapper<I: StorageIterator> {
    /// The source's creation index: its priority.
    pub index: usize,
    /// The source itself.
    pub iter: I,
}

/// `a` comes before `b`: a smaller key, or an equal key and a smaller index.
pub open spec fn precedes(ak: Seq<u8>, ai: int, bk: Seq<u8>, bi: int) -> bool {
    lex_lt(ak, bk) || (ak == bk && ai < bi)
}

proof fn lemma_precedes_trans(ak: Seq<u8>, ai: int, bk: Seq<u8>, bi: int, ck: Seq<u8>, ci: int)
    requires
        precedes(ak, ai, bk, bi),
        precedes(bk, bi, ck, ci),
    ensures
        precedes(ak, ai, ck, ci),
{
    if lex_lt(ak, bk) && lex_lt(bk, ck) {
        lemma_lex_lt_trans(ak, bk, ck);
    }
}

proof fn lemma_precedes_total(ak: Seq<u8>, ai: int, bk: Seq<u8>, bi: int)
    requires
        ai != bi,
    ensures
        precedes(ak, ai, bk, bi) || precedes(bk, bi, ak, ai),
{
    lemma_lex_trichotomy(ak, bk);
}

/// The sum of `f` over the wrappers of `s`.
pub open spec fn sum_by<I: StorageIterator>(
    s: Seq<HeapWrapper<I>>,
    f: spec_fn(HeapWrapper<I>) -> nat,
) -> nat
    decreases s.len(),
{
    if s.len() == 0 {
        0
    } else {
        sum_by(s.drop_last(), f) + f(s.last())
    }
}

/// The total remaining-advance bound of the wrappers of `s`.
pub open spec fn sum_rem<I: StorageIterator>(s: Seq<HeapWrapper<I>>) -> nat {
    sum_by(s, |w: HeapWrapper<I>| w.iter.spec_rem())
}

/// The total active-source count of the wrappers of `s`.
pub open spec fn sum_active<I: StorageIterator>(s: Seq<HeapWrapper<I>>) -> nat {
    sum_by(s, |w: HeapWrapper<I>| w.iter.spec_num_active())
}

proof fn lemma_sum_by_remove<I: StorageIterator>(
    s: Seq<HeapWrapper<I>>,
    i: int,
    f: spec_fn(HeapWrapper<I>) -> nat,
)
    requires
        0 <= i < s.len(),
    ensures
        sum_by(s.remove(i), f) + f(s[i]) == sum_by(s, f),
    decreases s.len(),
{
    if i == s.len() - 1 {
        assert(s.remove(i) =~= s.drop_last());
    } else {
        assert(s.remove(i).drop_last() =~= s.drop_last().remove(i));
        assert(s.remove(i).last() == s.last());
        lemma_sum_by_remove(s.drop_last(), i, f);
    }
}

proof fn lemma_sum_by_insert<I: StorageIterator>(
    s: Seq<HeapWrapper<I>>,
    i: int,
    w: HeapWrapper<I>,
    f: spec_fn(HeapWrapper<I>) -> nat,
)
    requires
        0 <= i <= s.len(),
    ensures
        sum_by(s.insert(i, w), f) == sum_by(s, f) + f(w),
    decreases s.len(),
{
    if i == s.len() {
        assert(s.insert(i, w).drop_last() =~= s);
        assert(s.insert(i, w).last() == w);
    } else {
        assert(s.insert(i, w).drop_last() =~= s.drop_last().insert(i, w));
        assert(s.insert(i, w).last() == s.last());
        lemma_sum_by_insert(s.drop_last(), i, w, f);
    }
}

proof fn lemma_sum_by_prefix_le<I: StorageIterator>(
    s: Seq<HeapWrapper<I>>,
    i: int,
    f: spec_fn(HeapWrapper<I>) -> nat,
)
    requires
        0 <= i <= s.len(),
    ensures
        sum_by(s.subrange(0, i), f) <= sum_by(s, f),
    decreases s.len() - i,
{
    if i == s.len() {
        assert(s.subrange(0, i) =~= s);
    } else {
        assert(s.subrange(0, i + 1).drop_last() =~= s.subrange(0, i));
        lemma_sum_by_prefix_le(s, i + 1, f);
    }
}

proof fn lemma_remove_index<I: StorageIterator>(s: Seq<HeapWrapper<I>>, i: int)
    requires
        0 <= i < s.len(),
    ensures
        s.remove(i).len() == s.len() - 1,
        forall|j: int| 0 <= j < i ==> s.remove(i)[j] == s[j],
        forall|j: int| i <= j < s.len() - 1 ==> s.remove(i)[j] == s[j + 1],
{
}

proof fn lemma_insert_index<I: StorageIterator>(s: Seq<HeapWrapper<I>>, i: int, w: HeapWrapper<I>)
    requires
        0 <= i <= s.len(),
    ensures
        s.insert(i, w).len() == s.len() + 1,
        s.insert(i, w)[i] == w,
        forall|j: int| 0 <= j < i ==> s.insert(i, w)[j] == s[j],
        forall|j: int| i < j < s.len() + 1 ==> s.insert(i, w)[j] == s[j - 1],
{
}

/// True iff `a` comes before `b` under the merge order.
fn wrapper_precedes<I: StorageIterator>(a: &HeapWrapper<I>, b: &HeapWrapper<I>) -> (r: bool)
    requires
        a.iter.inv(),
        a.iter.spec_valid(),
        b.iter.inv(),
        b.iter.spec_valid(),
    ensures
        r == precedes(a.iter.spec_key(), a.index as int, b.iter.spec_key(), b.index as int),
{
    let ka = a.iter.key();
    let kb = b.iter.key();
    if key_lt(ka.as_slice(), kb.as_slice()) {
        true
    } else if key_eq(ka.as_slice(), kb.as_slice()) {
        a.index < b.index
    } else {
        false
    }
}

/// The position of the wrapper that comes before every other one.
fn find_min<I: StorageIterator>(v: &Vec<HeapWrapper<I>>) -> (mi: usize)
    requires
        v@.len() > 0,
        forall|j: int|
            0 <= j < v@.len() ==> (#[trigger] v@[j]).iter.inv() && v@[j].iter.spec_valid(),
        forall|j: int, k: int| 0 <= j < k < v@.len() ==> v@[j].index != v@[k].index,
    ensures
        mi < v@.len(),
        forall|j: int|
            0 <= j < v@.len() && j != mi ==> precedes(
                v@[mi as int].iter.spec_key(),
                v@[mi as int].index as int,
                (#[trigger] v@[j]).iter.spec_key(),
                v@[j].index as int,
            ),
{
    let mut mi: usize = 0;
    let mut j: usize = 1;
    while j < v.len()
        invariant
            mi < j <= v@.len(),
            forall|k: int|
                0 <= k < v@.len() ==> (#[trigger] v@[k]).iter.inv() && v@[k].iter.spec_valid(),
            forall|k: int, l: int| 0 <= k < l < v@.len() ==> v@[k].index != v@[l].index,
            forall|k: int|
                0 <= k < j && k != mi ==> precedes(
                    v@[mi as int].iter.spec_key(),
                    v@[mi as int].index as int,
                    (#[trigger] v@[k]).iter.spec_key(),
                    v@[k].index as int,
                ),
        decreases v@.len() - j,
    {
        let takes = wrapper_precedes(&v[j], &v[mi]);
        proof {
            if !takes {
                lemma_precedes_total(
                    v@[mi as int].iter.spec_key(),
                    v@[mi as int].index as int,
                    v@[j as int].iter.spec_key(),
                    v@[j as int].index as int,
                );
            }
        }
        if takes {
            let ghost omi = mi as int;
            mi = j;
            proof {
                assert forall|k: int| 0 <= k < j + 1 && k != mi implies precedes(
                    v@[mi as int].iter.spec_key(),
                    v@[mi as int].index as int,
                    (#[trigger] v@[k]).iter.spec_key(),
                    v@[k].index as int,
                ) by {
                    if k != omi {
                        lemma_precedes_trans(
                            v@[mi as int].iter.spec_key(),
                            v@[mi as int].index as int,
                            v@[omi].iter.spec_key(),
                            v@[omi].index as int,
                            v@[k].iter.spec_key(),
                            v@[k].index as int,
                        );
                    }
                }
            }
        }
        j = j + 1;
    }
    mi
}

/// Merges several sorted streams; the lowest-indexed source wins equal keys.
pub struct MergeIterator<I: StorageIterator> {
    /// The sources that are not currently selected; all valid.
    pub iters: Vec<HeapWrapper<I>>,
    /// The currently selected source: the one that comes before all others.
    pub current: Option<HeapWrapper<I>>,
}

impl<I: StorageIterator> MergeIterator<I> {
    /// Every waiting source is well-formed and valid, and indices are
    /// mutually distinct.
    pub open spec fn rest_wf(&self) -> bool {
        &&& (forall|j: int|
            0 <= j < self.iters@.len() ==> (#[trigger] self.iters@[j]).iter.inv()
                && self.iters@[j].iter.spec_valid())
        &&& (forall|j: int, k: int|
            0 <= j < k < self.iters@.len() ==> self.iters@[j].index != self.iters@[k].index)
    }

    /// While the selected source is valid it comes before every waiting one.
    pub open spec fn cur_precedes(&self) -> bool {
        match self.current {
            Some(c) => c.iter.spec_valid() ==> forall|j: int|
                0 <= j < self.iters@.len() ==> precedes(
                    c.iter.spec_key(),
                    c.index as int,
                    (#[trigger] self.iters@[j]).iter.spec_key(),
                    self.iters@[j].index as int,
                ),
            None => true,
        }
    }

    /// The selected source's index differs from every waiting one's.
    pub open spec fn cur_index_fresh(&self) -> bool {
        match self.current {
            Some(c) => forall|j: int|
                0 <= j < self.iters@.len() ==> c.index != (#[trigger] self.iters@[j]).index,
            None => true,
        }
    }

    /// Whether the merge holds source `k` in state `it`, either selected or
    /// waiting.
    pub open spec fn holds_source(&self, k: int, it: I) -> bool {
        ||| (match self.current {
            Some(c) => c.index == k && c.iter == it,
            None => false,
        })
        ||| (exists|j: int|
            0 <= j < self.iters@.len() && (#[trigger] self.iters@[j]).index == k
                && self.iters@[j].iter == it)
    }

    /// Creates a merge over `iters`; index `i` is source `i`'s priority.
    /// Invalid sources are left out from the start; every valid one is held.
    pub fn create(iters: Vec<Box<I>>) -> (m: MergeIterator<I>)
        requires
            forall|i: int| 0 <= i < iters@.len() ==> (#[trigger] iters@[i]).inv(),
            sum_active_boxed(iters@) <= usize::MAX,
        ensures
            m.inv(),
            (forall|i: int|
                0 <= i < iters@.len() ==> (#[trigger] iters@[i]).keys_nonempty())
                ==> m.keys_nonempty(),
            m.spec_valid() == (exists|i: int|
                0 <= i < iters@.len() && (#[trigger] iters@[i]).spec_valid()),
            forall|i: int|
                0 <= i < iters@.len() && (#[trigger] iters@[i]).spec_valid() ==> m.holds_source(
                    i,
                    *iters@[i],
                ),
            m.spec_num_active() == sum_active_valid_boxed(iters@),
            !m.spec_valid() ==> m.current is None && m.spec_key() == Seq::<u8>::empty()
                && m.spec_value() == Seq::<u8>::empty(),
            m.spec_valid() ==> m.current.unwrap().index < iters@.len() && iters@[m.current.unwrap().index as int].spec_valid()
                && m.current.unwrap().iter == *iters@[m.current.unwrap().index as int],
            m.spec_valid() ==> (forall|i: int|
                0 <= i < iters@.len() && (#[trigger] iters@[i]).spec_valid() ==> (lex_lt(
                    m.spec_key(),
                    iters@[i].spec_key(),
                ) || (m.spec_key() == iters@[i].spec_key() && m.current.unwrap().index <= i))),
    {
        let ghost orig = iters@;
        let mut boxes = iters;
        let n0 = boxes.len();
        let mut rest: Vec<HeapWrapper<I>> = Vec::new();
        let mut i: usize = 0;
        proof {
            assert(sum_active(rest@) == 0);
            assert(boxes@ =~= orig.subrange(0, orig.len() as int));
            assert(sum_active_valid_boxed(orig.subrange(0, 0)) == 0);
        }
        while boxes.len() > 0
            invariant
                n0 == orig.len(),
                i + boxes@.len() == orig.len(),
                boxes@ =~= orig.subrange(i as int, orig.len() as int),
                forall|k: int| 0 <= k < orig.len() ==> (#[trigger] orig[k]).inv(),
                sum_active_boxed(orig) <= usize::MAX,
                forall|j: int|
                    0 <= j < rest@.len() ==> (#[trigger] rest@[j]).iter.inv()
                        && rest@[j].iter.spec_valid(),
                forall|j: int| 0 <= j < rest@.len() ==> (#[trigger] rest@[j]).index < i,
                forall|j: int, k: int| 0 <= j < k < rest@.len() ==> rest@[j].index != rest@[k].index,
                sum_active(rest@) + sum_active_boxed(boxes@) <= sum_active_boxed(orig),
                (forall|k: int| 0 <= k < orig.len() ==> (#[trigger] orig[k]).keys_nonempty())
                    ==> (forall|j: int|
                    0 <= j < rest@.len() ==> (#[trigger] rest@[j]).iter.keys_nonempty()),
                (rest@.len() > 0) == (exists|k: int|
                    0 <= k < i && (#[trigger] orig[k]).spec_valid()),
                forall|j: int|
                    0 <= j < rest@.len() ==> (#[trigger] rest@[j]).iter == *orig[rest@[j].index as int],
                forall|k: int|
                    0 <= k < i && (#[trigger] orig[k]).spec_valid() ==> exists|j: int|
                        0 <= j < rest@.len() && (#[trigger] rest@[j]).index == k,
                sum_active(rest@) == sum_active_valid_boxed(orig.subrange(0, i as int)),
            decreases boxes@.len(),
        {
            let ghost pre_boxes = boxes@;
            let b = boxes.remove(0);
            proof {
                assert(pre_boxes[0] == orig[i as int]);
                lemma_sum_boxed_remove_first(pre_boxes);
                assert(boxes@ =~= orig.subrange(i + 1, orig.len() as int));
            }
            let valid = b.is_valid();
            if valid {
                let w = HeapWrapper { index: i, iter: *b };
                let ghost pre_rest = rest@;
                rest.push(w);
                proof {
                    assert(rest@.drop_last() =~= pre_rest);
                    assert(sum_active(rest@) == sum_active(pre_rest) + w.iter.spec_num_active());
                }
            }
            proof {
                let pre_pref = orig.subrange(0, i as int);
                let cur_pref = orig.subrange(0, i + 1);
                assert(cur_pref.drop_last() =~= pre_pref);
                assert(cur_pref.last() == orig[i as int]);
            }
            i = i + 1;
        }
        let current: Option<HeapWrapper<I>> = if rest.len() > 0 {
            let mi = find_min(&rest);
            let ghost pre = rest@;
            let w = rest.remove(mi);
            proof {
                lemma_sum_by_remove(pre, mi as int, |x: HeapWrapper<I>| x.iter.spec_num_active());
                lemma_remove_index(pre, mi as int);
                assert forall|k: int|
                    0 <= k < orig.len() && (#[trigger] orig[k]).spec_valid() implies (w.index == k
                    && w.iter == *orig[k]) || (exists|j: int|
                    0 <= j < rest@.len() && (#[trigger] rest@[j]).index == k && rest@[j].iter
                        == *orig[k]) by {
                    let j = choose|j: int| 0 <= j < pre.len() && (#[trigger] pre[j]).index == k;
                    if j != mi as int {
                        let j2 = if j < mi as int {
                            j
                        } else {
                            j - 1
                        };
                        assert(rest@[j2].index == k && rest@[j2].iter == *orig[k]);
                    }
                }
                assert(w.index < orig.len());
                assert(w.iter == *orig[w.index as int]);
                assert(orig[w.index as int].spec_valid());
            }
            Some(w)
        } else {
            None
        };
        let m = MergeIterator { iters: rest, current };
        proof {
            assert(orig.subrange(0, orig.len() as int) =~= orig);
            assert forall|k: int|
                0 <= k < orig.len() && (#[trigger] orig[k]).spec_valid() implies m.holds_source(
                k,
                *orig[k],
            ) by {
                if m.current is Some && m.current.unwrap().index == k {
                } else {
                    let j = choose|j: int|
                        0 <= j < m.iters@.len() && (#[trigger] m.iters@[j]).index == k
                            && m.iters@[j].iter == *orig[k];
                    assert(m.iters@[j].index == k && m.iters@[j].iter == *orig[k]);
                }
            }
            if m.spec_valid() {
                let c = m.current.unwrap();
                assert forall|k: int|
                    0 <= k < orig.len() && (#[trigger] orig[k]).spec_valid() implies (lex_lt(
                    m.spec_key(),
                    orig[k].spec_key(),
                ) || (m.spec_key() == orig[k].spec_key() && c.index <= k)) by {
                    if c.index != k {
                        let j = choose|j: int|
                            0 <= j < m.iters@.len() && (#[trigger] m.iters@[j]).index == k
                                && m.iters@[j].iter == *orig[k];
                        assert(precedes(
                            c.iter.spec_key(),
                            c.index as int,
                            m.iters@[j].iter.spec_key(),
                            m.iters@[j].index as int,
                        ));
                    }
                }
            }
        }
        m
    }

    /// On equal keys only the lowest-indexed source is exposed: while the
    /// merge is valid, every waiting source holding the same key as the
    /// output has a larger index than the selected source, and the output
    /// value is the selected source's.
    pub proof fn lemma_tie_break(&self)
        requires
            self.inv(),
            self.spec_valid(),
        ensures
            self.spec_value() == self.current.unwrap().iter.spec_value(),
            forall|j: int|
                0 <= j < self.iters@.len() && (#[trigger] self.iters@[j]).iter.spec_key()
                    == self.spec_key() ==> self.current.unwrap().index < self.iters@[j].index,
    {
        let c = self.current.unwrap();
        assert forall|j: int|
            0 <= j < self.iters@.len() && (#[trigger] self.iters@[j]).iter.spec_key()
                == self.spec_key() implies c.index < self.iters@[j].index by {
            crate::keys::lemma_lex_irreflexive(c.iter.spec_key());
        }
    }
}

/// The total active-source count of a row of boxed sources.
pub open spec fn sum_active_boxed<I: StorageIterator>(s: Seq<Box<I>>) -> nat
    decreases s.len(),
{
    if s.len() == 0 {
        0
    } else {
        sum_active_boxed(s.drop_last()) + s.last().spec_num_active()
    }
}

/// The total active-source count over only the valid sources of the row.
pub open spec fn sum_active_valid_boxed<I: StorageIterator>(s: Seq<Box<I>>) -> nat
    decreases s.len(),
{
    if s.len() == 0 {
        0
    } else {
        sum_active_valid_boxed(s.drop_last()) + (if s.last().spec_valid() {
            s.last().spec_num_active()
        } else {
            0
        })
    }
}

proof fn lemma_sum_boxed_remove_first<I: StorageIterator>(s: Seq<Box<I>>)
    requires
        s.len() > 0,
    ensures
        sum_active_boxed(s) == s[0].spec_num_active() + sum_active_boxed(
            s.subrange(1, s.len() as int),
        ),
    decreases s.len(),
{
    if s.len() == 1 {
        assert(s.subrange(1, s.len() as int) =~= Seq::<Box<I>>::empty());
        assert(s.drop_last() =~= Seq::<Box<I>>::empty());
    } else {
        lemma_sum_boxed_remove_first(s.drop_last());
        assert(s.drop_last()[0] == s[0]);
        assert(s.subrange(1, s.len() as int).drop_last() =~= s.drop_last().subrange(
            1,
            s.len() - 1,
        ));
        assert(s.subrange(1, s.len() as int).last() == s.last());
    }
}

impl<I: StorageIterator> StorageIterator for MergeIterator<I> {
    open spec fn inv(&self) -> bool {
        &&& self.rest_wf()
        &&& self.cur_precedes()
        &&& self.cur_index_fresh()
        &&& (match self.current {
            Some(c) => c.iter.inv() && (c.iter.spec_valid() || self.iters@.len() == 0),
            None => self.iters@.len() == 0,
        })
        &&& self.spec_num_active() <= usize::MAX
    }

    open spec fn spec_valid(&self) -> bool {
        match self.current {
            Some(c) => c.iter.spec_valid(),
            None => false,
        }
    }

    open spec fn spec_key(&self) -> Seq<u8> {
        match self.current {
            Some(c) => c.iter.spec_key(),
            None => Seq::empty(),
        }
    }

    open spec fn spec_value(&self) -> Seq<u8> {
        match self.current {
            Some(c) => c.iter.spec_value(),
            None => Seq::empty(),
        }
    }

    open spec fn spec_rem(&self) -> nat {
        (match self.current {
            Some(c) => c.iter.spec_rem(),
            None => 0,
        }) + sum_rem(self.iters@)
    }

    open spec fn spec_num_active(&self) -> nat {
        (match self.current {
            Some(c) => c.iter.spec_num_active(),
            None => 0,
        }) + sum_active(self.iters@)
    }

    open spec fn keys_nonempty(&self) -> bool {
        &&& (match self.current {
            Some(c) => c.iter.keys_nonempty(),
            None => true,
        })
        &&& (forall|j: int|
            0 <= j < self.iters@.len() ==> (#[trigger] self.iters@[j]).iter.keys_nonempty())
    }

    fn key(&self) -> (k: Vec<u8>) {
        match &self.current {
            Some(c) => c.iter.key(),
            None => {
                proof {
                    assert(false);
                }
                Vec::new()
            },
        }
    }

    fn value(&self) -> (v: Vec<u8>) {
        match &self.current {
            Some(c) => c.iter.value(),
            None => {
                proof {
                    assert(false);
                }
                Vec::new()
            },
        }
    }

    fn is_valid(&self) -> (b: bool) {
        match &self.current {
            Some(c) => c.iter.is_valid(),
            None => false,
        }
    }

    /// Advances past the selected key: every waiting source holding it is
    /// advanced too, a failing source is evicted with its error surfaced,
    /// and the source that now comes first is selected. The merge only goes
    /// invalid when no live source remains.
    fn next(&mut self) -> (r: Result<(), Error>)
        ensures
            r is Ok ==> final(self).spec_valid() || final(self).iters@.len() == 0,
            (r is Err && old(self).spec_valid()) ==> final(self).spec_valid()
                || final(self).iters@.len() == 0,
            (r is Ok && old(self).spec_valid()) ==> (forall|j: int|
                0 <= j < final(self).iters@.len() ==> lex_lt(
                    old(self).spec_key(),
                    (#[trigger] final(self).iters@[j]).iter.spec_key(),
                )),
    {
        let ghost pre = *self;
        let mut cur_opt: Option<HeapWrapper<I>> = None;
        core::mem::swap(&mut cur_opt, &mut self.current);
        let mut c = match cur_opt {
            None => {
                return Ok(());
            },
            Some(c) => c,
        };
        if !c.iter.is_valid() {
            self.current = Some(c);
            proof {
                assert(*self =~= pre);
            }
            return Ok(());
        }
        let k = c.iter.key();
        // advance every waiting source that holds the selected key
        let mut i: usize = 0;
        while i < self.iters.len()
            invariant
                i <= self.iters@.len(),
                pre == *old(self),
                pre.inv(),
                pre.current is Some,
                c.iter.inv(),
                c.iter.spec_valid(),
                c.iter.spec_key() == k@,
                c == pre.current.unwrap(),
                self.current is None,
                forall|j: int|
                    0 <= j < self.iters@.len() ==> (#[trigger] self.iters@[j]).iter.inv()
                        && self.iters@[j].iter.spec_valid(),
                forall|j: int, l: int|
                    0 <= j < l < self.iters@.len() ==> self.iters@[j].index != self.iters@[l].index,
                forall|j: int|
                    0 <= j < self.iters@.len() ==> c.index != (#[trigger] self.iters@[j]).index,
                forall|j: int|
                    0 <= j < self.iters@.len() ==> precedes(
                        k@,
                        c.index as int,
                        (#[trigger] self.iters@[j]).iter.spec_key(),
                        self.iters@[j].index as int,
                    ),
                forall|j: int|
                    0 <= j < i ==> (#[trigger] self.iters@[j]).iter.spec_key() != k@,
                sum_rem(self.iters@) <= sum_rem(pre.iters@),
                sum_active(self.iters@) <= sum_active(pre.iters@),
                pre.keys_nonempty() ==> (forall|j: int|
                    0 <= j < self.iters@.len() ==> (#[trigger] self.iters@[j]).iter.keys_nonempty())
                    && c.iter.keys_nonempty(),
            decreases self.iters@.len() - i,
        {
            let same = {
                let ki = self.iters[i].iter.key();
                key_eq(ki.as_slice(), k.as_slice())
            };
            if same {
                let ghost pre_rest = self.iters@;
                let mut w = self.iters.remove(i);
                proof {
                    lemma_sum_by_remove(pre_rest, i as int, |x: HeapWrapper<I>| x.iter.spec_rem());
                    lemma_sum_by_remove(
                        pre_rest,
                        i as int,
                        |x: HeapWrapper<I>| x.iter.spec_num_active(),
                    );
                    lemma_remove_index(pre_rest, i as int);
                }
                match w.iter.next() {
                    Err(e) => {
                        // evict the failing source and surface the error
                        self.current = Some(c);
                        return Err(e);
                    },
                    Ok(()) => {
                        if w.iter.is_valid() {
                            let ghost mid_rest = self.iters@;
                            self.iters.insert(i, w);
                            proof {
                                lemma_sum_by_insert(
                                    mid_rest,
                                    i as int,
                                    w,
                                    |x: HeapWrapper<I>| x.iter.spec_rem(),
                                );
                                lemma_sum_by_insert(
                                    mid_rest,
                                    i as int,
                                    w,
                                    |x: HeapWrapper<I>| x.iter.spec_num_active(),
                                );
                                lemma_insert_index(mid_rest, i as int, w);
                                crate::keys::lemma_lex_irreflexive(k@);
                            }
                            i = i + 1;
                        }
                    },
                }
            } else {
                i = i + 1;
            }
        }
        // advance the selected source itself
        let stepped = c.iter.next();
        let c_valid = c.iter.is_valid();
        if c_valid {
            // restore minimality: swap with the best waiting source if that
            // one now comes first
            if self.iters.len() > 0 {
                let mi = find_min(&self.iters);
                let swap_in = wrapper_precedes(&self.iters[mi], &c);
                if swap_in {
                    let ghost pre_rest = self.iters@;
                    let w = self.iters.remove(mi);
                    proof {
                        lemma_sum_by_remove(
                            pre_rest,
                            mi as int,
                            |x: HeapWrapper<I>| x.iter.spec_rem(),
                        );
                        lemma_sum_by_remove(
                            pre_rest,
                            mi as int,
                            |x: HeapWrapper<I>| x.iter.spec_num_active(),
                        );
                        lemma_remove_index(pre_rest, mi as int);
                    }
                    let ghost mid_rest = self.iters@;
                    self.iters.push(c);
                    proof {
                        assert(self.iters@.drop_last() =~= mid_rest);
                        assert forall|j: int| 0 <= j < self.iters@.len() implies precedes(
                            w.iter.spec_key(),
                            w.index as int,
                            (#[trigger] self.iters@[j]).iter.spec_key(),
                            self.iters@[j].index as int,
                        ) by {
                            if j < self.iters@.len() - 1 {
                                assert(self.iters@[j] == pre_rest[if j < mi as int {
                                    j
                                } else {
                                    j + 1
                                }]);
                            }
                        }
                    }
                    self.current = Some(w);
                } else {
                    proof {
                        let ghost mik = self.iters@[mi as int].iter.spec_key();
                        let ghost mii = self.iters@[mi as int].index as int;
                        lemma_precedes_total(
                            mik,
                            mii,
                            c.iter.spec_key(),
                            c.index as int,
                        );
                        assert forall|j: int| 0 <= j < self.iters@.len() implies precedes(
                            c.iter.spec_key(),
                            c.index as int,
                            (#[trigger] self.iters@[j]).iter.spec_key(),
                            self.iters@[j].index as int,
                        ) by {
                            if j != mi as int {
                                lemma_precedes_trans(
                                    c.iter.spec_key(),
                                    c.index as int,
                                    mik,
                                    mii,
                                    self.iters@[j].iter.spec_key(),
                                    self.iters@[j].index as int,
                                );
                            }
                        }
                    }
                    self.current = Some(c);
                }
            } else {
                self.current = Some(c);
            }
            proof {
                if stepped is Ok && self.spec_valid() {
                    assert(lex_lt(k@, self.spec_key()));
                }
            }
        } else {
            // the selected source is done, or failed and went invalid: it
            // leaves the merge and the best waiting source takes its place
            if self.iters.len() > 0 {
                let mi = find_min(&self.iters);
                let ghost pre_rest = self.iters@;
                let w = self.iters.remove(mi);
                proof {
                    lemma_sum_by_remove(pre_rest, mi as int, |x: HeapWrapper<I>| x.iter.spec_rem());
                    lemma_sum_by_remove(
                        pre_rest,
                        mi as int,
                        |x: HeapWrapper<I>| x.iter.spec_num_active(),
                    );
                    lemma_remove_index(pre_rest, mi as int);
                }
                self.current = Some(w);
            } else {
                self.current = None;
            }
        }
        stepped
    }

    fn num_active_iterators(&self) -> (n: usize) {
        let mut count: usize = match &self.current {
            Some(c) => c.iter.num_active_iterators(),
            None => 0,
        };
        let ghost f = |x: HeapWrapper<I>| x.iter.spec_num_active();
        let ghost base = count as nat;
        let mut i: usize = 0;
        proof {
            assert(sum_by(self.iters@.subrange(0, 0), f) == 0);
        }
        while i < self.iters.len()
            invariant
                i <= self.iters@.len(),
                self.inv(),
                f == (|x: HeapWrapper<I>| x.iter.spec_num_active()),
                base + sum_active(self.iters@) <= usize::MAX,
                count as nat == base + sum_by(self.iters@.subrange(0, i as int), f),
            decreases self.iters@.len() - i,
        {
            proof {
                assert(self.iters@.subrange(0, i + 1).drop_last() =~= self.iters@.subrange(
                    0,
                    i as int,
                ));
                assert(self.iters@.subrange(0, i + 1).last() == self.iters@[i as int]);
                lemma_sum_by_prefix_le(self.iters@, i + 1, f);
            }
            let add = self.iters[i].iter.num_active_iterators();
            count = count + add;
            i = i + 1;
        }
        proof {
            assert(self.iters@.subrange(0, self.iters@.len() as int) =~= self.iters@);
        }
        count
    }
}

} // verus!
