use mini_lsm::iterators::{StorageIterator, VecIterator};
use mini_lsm::iterators::merge_iterator::MergeIterator;
use mini_lsm::iterators::two_merge_iterator::TwoMergeIterator;
use mini_lsm::lsm_iterator::{FusedIterator, LsmIterator};
use mini_lsm::Error;

fn entries(pairs: &[(&[u8], &[u8])]) -> Vec<(Vec<u8>, Vec<u8>)> {
    pairs.iter().map(|(k, v)| (k.to_vec(), v.to_vec())).collect()
}

fn drain<I: StorageIterator>(mut it: I) -> Vec<(Vec<u8>, Vec<u8>)> {
    let mut out = Vec::new();
    while it.is_valid() {
        out.push((it.key(), it.value()));
        it.next().unwrap();
    }
    out
}

#[test]
fn merge_iterator_priority() {
    let s0 = VecIterator::new(entries(&[(b"a", b"A0"), (b"b", b"B0")]));
    let s1 = VecIterator::new(entries(&[(b"a", b"A1"), (b"c", b"C1")]));
    let m = MergeIterator::create(vec![Box::new(s0), Box::new(s1)]);
    assert_eq!(m.num_active_iterators(), 2);
    assert_eq!(
        drain(m),
        entries(&[(b"a", b"A0"), (b"b", b"B0"), (b"c", b"C1")])
    );
}

#[test]
fn merge_iterator_skips_invalid_sources() {
    let s0 = VecIterator::new(entries(&[]));
    let s1 = VecIterator::new(entries(&[(b"k", b"v")]));
    let s2 = VecIterator::new(entries(&[]));
    let m = MergeIterator::create(vec![Box::new(s0), Box::new(s1), Box::new(s2)]);
    assert_eq!(m.num_active_iterators(), 1);
    assert_eq!(drain(m), entries(&[(b"k", b"v")]));
}

#[test]
fn merge_iterator_all_invalid() {
    let s0 = VecIterator::new(entries(&[]));
    let m = MergeIterator::create(vec![Box::new(s0)]);
    assert!(!m.is_valid());
    assert_eq!(m.num_active_iterators(), 0);
}

#[test]
fn merge_iterator_dedups_across_three_sources() {
    let s0 = VecIterator::new(entries(&[(b"b", b"B0")]));
    let s1 = VecIterator::new(entries(&[(b"a", b"A1"), (b"b", b"B1")]));
    let s2 = VecIterator::new(entries(&[(b"b", b"B2"), (b"c", b"C2")]));
    let m = MergeIterator::create(vec![Box::new(s0), Box::new(s1), Box::new(s2)]);
    assert_eq!(
        drain(m),
        entries(&[(b"a", b"A1"), (b"b", b"B0"), (b"c", b"C2")])
    );
}

#[test]
fn merge_iterator_evicts_failing_source() {
    // source 1 fails when advanced off "a"; the merge surfaces the error
    // once and drops that source
    let s0 = VecIterator::new(entries(&[(b"a", b"A0"), (b"c", b"C0")]));
    let s1 = VecIterator::new_failing(entries(&[(b"a", b"A1")]), 0);
    let mut m = MergeIterator::create(vec![Box::new(s0), Box::new(s1)]);
    assert_eq!(m.key(), b"a".to_vec());
    assert_eq!(m.value(), b"A0".to_vec());
    assert_eq!(m.next(), Err(Error::Step));
    // the failing source is gone; the stream still serves the rest
    assert!(m.is_valid());
    assert_eq!(m.key(), b"a".to_vec());
    assert_eq!(m.next(), Ok(()));
    assert_eq!(m.key(), b"c".to_vec());
    assert_eq!(m.num_active_iterators(), 1);
}

#[test]
fn two_merge_iterator_tie() {
    let a = VecIterator::new(entries(&[(b"k", b"from_A")]));
    let b = VecIterator::new(entries(&[(b"k", b"from_B"), (b"m", b"B_only")]));
    let t = TwoMergeIterator::create(a, b).unwrap();
    assert_eq!(
        drain(t),
        entries(&[(b"k", b"from_A"), (b"m", b"B_only")])
    );
}

#[test]
fn two_merge_iterator_tie_advances_both() {
    let a = VecIterator::new(entries(&[(b"k", b"from_A"), (b"z", b"ZA")]));
    let b = VecIterator::new(entries(&[(b"k", b"from_B")]));
    let mut t = TwoMergeIterator::create(a, b).unwrap();
    assert_eq!(t.key(), b"k".to_vec());
    assert_eq!(t.value(), b"from_A".to_vec());
    t.next().unwrap();
    // both cursors moved past "k"
    assert_eq!(t.key(), b"z".to_vec());
    t.next().unwrap();
    assert!(!t.is_valid());
}

#[test]
fn two_merge_iterator_interleaves() {
    let a = VecIterator::new(entries(&[(b"b", b"2"), (b"d", b"4")]));
    let b = VecIterator::new(entries(&[(b"a", b"1"), (b"c", b"3")]));
    let t = TwoMergeIterator::create(a, b).unwrap();
    assert_eq!(
        drain(t),
        entries(&[(b"a", b"1"), (b"b", b"2"), (b"c", b"3"), (b"d", b"4")])
    );
}

#[test]
fn fused_error_seal() {
    // the second advance of the source fails
    let src = VecIterator::new_failing(
        entries(&[(b"a", b"1"), (b"b", b"2"), (b"c", b"3")]),
        1,
    );
    let mut f = FusedIterator::new(src);
    assert!(f.is_valid());
    assert_eq!(f.next(), Ok(()));
    assert_eq!(f.next(), Err(Error::Step));
    assert!(!f.is_valid());
    assert_eq!(f.next(), Err(Error::Sealed));
    assert!(!f.is_valid());
    assert_eq!(f.next(), Err(Error::Sealed));
}

#[test]
fn fused_passes_entries_through() {
    let src = VecIterator::new(entries(&[(b"a", b"1"), (b"b", b"2")]));
    let f = FusedIterator::new(src);
    assert_eq!(drain(f), entries(&[(b"a", b"1"), (b"b", b"2")]));
}

#[test]
fn lsm_iterator_filters_tombstones() {
    // an empty value marks a deletion and is never yielded
    let s0 = VecIterator::new(entries(&[(b"a", b""), (b"c", b"C0")]));
    let s1 = VecIterator::new(entries(&[(b"b", b"B1"), (b"d", b"")]));
    let m = MergeIterator::create(vec![Box::new(s0), Box::new(s1)]);
    let l = LsmIterator::new(m).unwrap();
    assert_eq!(drain(l), entries(&[(b"b", b"B1"), (b"c", b"C0")]));
}

#[test]
fn lsm_iterator_tombstone_shadows_older_source() {
    // the newer source deletes "a"; the older value must not resurface
    let newer = VecIterator::new(entries(&[(b"a", b"")]));
    let older = VecIterator::new(entries(&[(b"a", b"old"), (b"b", b"keep")]));
    let m = MergeIterator::create(vec![Box::new(newer), Box::new(older)]);
    let l = LsmIterator::new(m).unwrap();
    assert_eq!(drain(l), entries(&[(b"b", b"keep")]));
}

#[test]
fn vec_iterator_walks_in_order() {
    let it = VecIterator::new(entries(&[(b"x", b"1"), (b"y", b"2")]));
    assert_eq!(it.num_active_iterators(), 1);
    assert_eq!(drain(it), entries(&[(b"x", b"1"), (b"y", b"2")]));
}

#[test]
fn merge_iterator_evicts_failed_selected_source() {
    // the selected source fails its advance and seals; the merge surfaces
    // the error, drops it, and keeps serving the other source
    let f0 = FusedIterator::new(VecIterator::new_failing(
        entries(&[(b"a", b"A0"), (b"c", b"C0")]),
        0,
    ));
    let f1 = FusedIterator::new(VecIterator::new(entries(&[(b"b", b"B1")])));
    let mut m = MergeIterator::create(vec![Box::new(f0), Box::new(f1)]);
    assert_eq!(m.key(), b"a".to_vec());
    assert_eq!(m.next(), Err(Error::Step));
    assert!(m.is_valid());
    assert_eq!(m.key(), b"b".to_vec());
    assert_eq!(m.value(), b"B1".to_vec());
    assert_eq!(m.next(), Ok(()));
    assert!(!m.is_valid());
    assert_eq!(m.num_active_iterators(), 0);
}
