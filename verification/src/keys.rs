//! Lexicographic order on byte strings. Keys are opaque byte strings and the
//! whole iterator layer compares them with this order.

use vstd::prelude::*;

verus! {

/// Lexicographic "less than" on the suffixes of `a` and `b` starting at `i`.
pub open spec fn lex_lt_from(a: Seq<u8>, b: Seq<u8>, i: int) -> bool
    decreases b.len() - i,
{
    if i >= b.len() {
        false
    } else if i >= a.len() {
        true
    } else if a[i] != b[i] {
        a[i] < b[i]
    } else {
        lex_lt_from(a, b, i + 1)
    }
}

/// Strict lexicographic order on byte strings.
pub open spec fn lex_lt(a: Seq<u8>, b: Seq<u8>) -> bool {
    lex_lt_from(a, b, 0)
}

/// Reflexive lexicographic order on byte strings.
pub open spec fn lex_le(a: Seq<u8>, b: Seq<u8>) -> bool {
    lex_lt(a, b) || a == b
}

proof fn lemma_lex_lt_from_trichotomy(a: Seq<u8>, b: Seq<u8>, i: int)
    requires
        0 <= i <= a.len(),
        i <= b.len(),
        a.subrange(0, i) == b.subrange(0, i),
    ensures
        lex_lt_from(a, b, i) || lex_lt_from(b, a, i) || a == b,
        lex_lt_from(a, b, i) ==> !lex_lt_from(b, a, i) && a != b,
    decreases a.len() - i,
{
    if i == a.len() && i == b.len() {
        assert(a =~= b) by {
            assert(forall|j: int| 0 <= j < i ==> a[j] == a.subrange(0, i)[j] && b[j] == b.subrange(0, i)[j]);
        }
    } else if i == a.len() {
        // a ran out first: a < b
        assert(lex_lt_from(a, b, i));
        assert(!lex_lt_from(b, a, i));
        assert(a.len() != b.len());
    } else if i == b.len() {
        assert(lex_lt_from(b, a, i));
        assert(!lex_lt_from(a, b, i));
        assert(a.len() != b.len());
    } else if a[i] != b[i] {
        assert(a != b);
    } else {
        assert(a.subrange(0, i + 1) =~= b.subrange(0, i + 1)) by {
            assert(forall|j: int| 0 <= j < i ==> a.subrange(0, i)[j] == b.subrange(0, i)[j]);
        }
        lemma_lex_lt_from_trichotomy(a, b, i + 1);
    }
}

/// Of `lex_lt(a, b)`, `lex_lt(b, a)` and `a == b`, exactly one holds.
pub proof fn lemma_lex_trichotomy(a: Seq<u8>, b: Seq<u8>)
    ensures
        lex_lt(a, b) || lex_lt(b, a) || a == b,
        lex_lt(a, b) ==> !lex_lt(b, a) && a != b,
        lex_lt(b, a) ==> !lex_lt(a, b) && a != b,
{
    assert(a.subrange(0, 0) =~= b.subrange(0, 0));
    lemma_lex_lt_from_trichotomy(a, b, 0);
    lemma_lex_lt_from_trichotomy(b, a, 0);
}

/// The order is irreflexive.
pub proof fn lemma_lex_irreflexive(a: Seq<u8>)
    ensures
        !lex_lt(a, a),
{
    lemma_lex_trichotomy(a, a);
}

proof fn lemma_lex_lt_from_trans(a: Seq<u8>, b: Seq<u8>, c: Seq<u8>, i: int)
    requires
        0 <= i,
        lex_lt_from(a, b, i),
        lex_lt_from(b, c, i),
    ensures
        lex_lt_from(a, c, i),
    decreases a.len() - i,
{
    if i >= a.len() {
        // lex_lt_from(b, c, i) gives i < c.len()
    } else if a[i] != b[i] {
        // a[i] < b[i]; and b[i] <= c[i] in every surviving case
    } else if b[i] != c[i] {
        // a[i] == b[i] < c[i]
    } else {
        lemma_lex_lt_from_trans(a, b, c, i + 1);
    }
}

/// The order is transitive.
pub proof fn lemma_lex_lt_trans(a: Seq<u8>, b: Seq<u8>, c: Seq<u8>)
    requires
        lex_lt(a, b),
        lex_lt(b, c),
    ensures
        lex_lt(a, c),
{
    lemma_lex_lt_from_trans(a, b, c, 0);
}

/// Transitivity with a reflexive step on the left.
pub proof fn lemma_lex_le_lt_trans(a: Seq<u8>, b: Seq<u8>, c: Seq<u8>)
    requires
        lex_le(a, b),
        lex_lt(b, c),
    ensures
        lex_lt(a, c),
{
    if a != b {
        lemma_lex_lt_trans(a, b, c);
    }
}

/// Transitivity with a reflexive step on the right.
pub proof fn lemma_lex_lt_le_trans(a: Seq<u8>, b: Seq<u8>, c: Seq<u8>)
    requires
        lex_lt(a, b),
        lex_le(b, c),
    ensures
        lex_lt(a, c),
{
    if b != c {
        lemma_lex_lt_trans(a, b, c);
    }
}

/// Compares two keys; true iff `a` comes strictly before `b`.
pub fn key_lt(a: &[u8], b: &[u8]) -> (r: bool)
    ensures
        r == lex_lt(a@, b@),
{
    let mut i: usize = 0;
    while i < a.len() && i < b.len()
        invariant
            0 <= i <= a@.len(),
            i <= b@.len(),
            lex_lt(a@, b@) == lex_lt_from(a@, b@, i as int),
        decreases a@.len() - i,
    {
        let x = *vstd::slice::slice_index_get(a, i);
        let y = *vstd::slice::slice_index_get(b, i);
        if x < y {
            return true;
        }
        if x > y {
            return false;
        }
        i = i + 1;
    }
    a.len() < b.len()
}

/// Compares two keys; true iff `a` comes before `b` or equals it.
pub fn key_le(a: &[u8], b: &[u8]) -> (r: bool)
    ensures
        r == lex_le(a@, b@),
{
    let r = key_lt(b, a);
    proof {
        lemma_lex_trichotomy(a@, b@);
    }
    !r
}

/// True iff the two keys hold the same bytes.
pub fn key_eq(a: &[u8], b: &[u8]) -> (r: bool)
    ensures
        r == (a@ == b@),
{
    let lt = key_lt(a, b);
    if lt {
        proof {
            lemma_lex_trichotomy(a@, b@);
        }
        return false;
    }
    let gt = key_lt(b, a);
    proof {
        lemma_lex_trichotomy(a@, b@);
    }
    !gt
}

/// Copies a key into an owned buffer.
pub fn copy_bytes(a: &[u8]) -> (r: Vec<u8>)
    ensures
        r@ == a@,
{
    vstd::slice::slice_to_vec(a)
}

} // verus!
