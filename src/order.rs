//! Lexicographic order on byte strings.
use vstd::prelude::*;

verus! {

/// Compares `a` and `b` from position `i` on: -1, 0 or 1.
pub open spec fn lex_cmp(a: Seq<u8>, b: Seq<u8>, i: int) -> int
    decreases a.len() - i,
{
    if i < 0 || (i >= a.len() && i >= b.len()) {
        0
    } else if i >= a.len() {
        -1
    } else if i >= b.len() {
        1
    } else if a[i] < b[i] {
        -1
    } else if a[i] > b[i] {
        1
    } else {
        lex_cmp(a, b, i + 1)
    }
}

/// `a` comes strictly before `b`.
pub open spec fn lex_lt(a: Seq<u8>, b: Seq<u8>) -> bool {
    lex_cmp(a, b, 0) < 0
}

/// `a` begins with `p`.
pub open spec fn starts_with(a: Seq<u8>, p: Seq<u8>) -> bool {
    p.len() <= a.len() && a.subrange(0, p.len() as int) == p
}

pub proof fn lemma_cmp_refl(a: Seq<u8>, i: int)
    ensures
        lex_cmp(a, a, i) == 0,
    decreases a.len() - i,
{
    if 0 <= i < a.len() {
        lemma_cmp_refl(a, i + 1);
    }
}

pub proof fn lemma_cmp_antisym(a: Seq<u8>, b: Seq<u8>, i: int)
    ensures
        lex_cmp(a, b, i) == -lex_cmp(b, a, i),
    decreases a.len() - i,
{
    if 0 <= i < a.len() && i < b.len() && a[i] == b[i] {
        lemma_cmp_antisym(a, b, i + 1);
    }
}

pub proof fn lemma_cmp_eq(a: Seq<u8>, b: Seq<u8>, i: int)
    requires
        0 <= i,
        lex_cmp(a, b, i) == 0,
    ensures
        i <= a.len() && i <= b.len() ==> a.len() == b.len() && forall|j: int|
            i <= j < a.len() ==> a[j] == b[j],
    decreases a.len() - i,
{
    if i < a.len() && i < b.len() {
        lemma_cmp_eq(a, b, i + 1);
        assert forall|j: int| i <= j < a.len() implies a[j] == b[j] by {
            if j > i {
                assert(i + 1 <= j);
            }
        }
    }
}

/// Equal strings and only they compare as 0.
pub proof fn lemma_cmp_zero(a: Seq<u8>, b: Seq<u8>)
    ensures
        (lex_cmp(a, b, 0) == 0) == (a == b),
{
    if lex_cmp(a, b, 0) == 0 {
        lemma_cmp_eq(a, b, 0);
        assert(a =~= b);
    }
    if a == b {
        lemma_cmp_refl(a, 0);
    }
}

pub proof fn lemma_cmp_trans(a: Seq<u8>, b: Seq<u8>, c: Seq<u8>, i: int)
    requires
        lex_cmp(a, b, i) <= 0,
        lex_cmp(b, c, i) <= 0,
    ensures
        lex_cmp(a, c, i) <= 0,
        lex_cmp(a, b, i) < 0 || lex_cmp(b, c, i) < 0 ==> lex_cmp(a, c, i) < 0,
    decreases a.len() - i,
{
    if 0 <= i < a.len() && i < b.len() && i < c.len() && a[i] == b[i] && b[i] == c[i] {
        lemma_cmp_trans(a, b, c, i + 1);
    }
}

/// `<` on byte strings is transitive.
pub proof fn lemma_lt_trans(a: Seq<u8>, b: Seq<u8>, c: Seq<u8>)
    requires
        lex_lt(a, b),
        lex_lt(b, c),
    ensures
        lex_lt(a, c),
{
    lemma_cmp_trans(a, b, c, 0);
}

/// Any two byte strings are equal or ordered one way.
pub proof fn lemma_lt_total(a: Seq<u8>, b: Seq<u8>)
    ensures
        lex_lt(a, b) || lex_lt(b, a) || a == b,
        !(lex_lt(a, b) && lex_lt(b, a)),
        !lex_lt(a, a),
{
    lemma_cmp_antisym(a, b, 0);
    lemma_cmp_zero(a, b);
    lemma_cmp_refl(a, 0);
}

/// Compares two byte strings.
pub fn compare(a: &[u8], b: &[u8]) -> (r: i8)
    ensures
        r == lex_cmp(a@, b@, 0),
{
    let mut i: usize = 0;
    while i < a.len() && i < b.len()
        invariant
            i <= a@.len(),
            i <= b@.len(),
            lex_cmp(a@, b@, 0) == lex_cmp(a@, b@, i as int),
        decreases a@.len() - i,
    {
        if a[i] < b[i] {
            return -1;
        } else if a[i] > b[i] {
            return 1;
        }
        i = i + 1;
    }
    if i >= a.len() && i >= b.len() {
        0
    } else if i >= a.len() {
        -1
    } else {
        1
    }
}

/// Whether `a` begins with `p`.
pub fn has_prefix(a: &[u8], p: &[u8]) -> (r: bool)
    ensures
        r == starts_with(a@, p@),
{
    if p.len() > a.len() {
        return false;
    }
    let mut i: usize = 0;
    while i < p.len()
        invariant
            p@.len() <= a@.len(),
            i <= p@.len(),
            forall|j: int| 0 <= j < i ==> a@[j] == p@[j],
        decreases p@.len() - i,
    {
        if a[i] != p[i] {
            assert(a@.subrange(0, p@.len() as int)[i as int] != p@[i as int]);
            return false;
        }
        i = i + 1;
    }
    assert(a@.subrange(0, p@.len() as int) =~= p@);
    true
}

} // verus!
