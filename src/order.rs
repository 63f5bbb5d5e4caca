//! Byte-wise lexicographic order on keys, and sorted key sequences.
use vstd::prelude::*;

verus! {

/// `a` sorts strictly before `b` in lexicographic byte order (a proper
/// prefix sorts first).
pub open spec fn lex_lt(a: Seq<u8>, b: Seq<u8>) -> bool
    decreases a.len(),
{
    if b.len() == 0 {
        false
    } else if a.len() == 0 {
        true
    } else if a[0] != b[0] {
        a[0] < b[0]
    } else {
        lex_lt(a.drop_first(), b.drop_first())
    }
}

/// Every key sorts strictly before the next one: ascending and free of duplicates.
pub open spec fn strictly_sorted(s: Seq<Seq<u8>>) -> bool {
    forall|i: int, j: int| 0 <= i < j < s.len() ==> lex_lt(#[trigger] s[i], #[trigger] s[j])
}

/// `s` lists the keys of `set` once each, in ascending order.
pub open spec fn is_sorted_set_of(s: Seq<Seq<u8>>, set: Set<Seq<u8>>) -> bool {
    strictly_sorted(s) && s.to_set() == set
}

pub proof fn lemma_lex_irreflexive(a: Seq<u8>)
    ensures
        !lex_lt(a, a),
    decreases a.len(),
{
    if a.len() > 0 {
        lemma_lex_irreflexive(a.drop_first());
    }
}

pub proof fn lemma_lex_asymmetric(a: Seq<u8>, b: Seq<u8>)
    ensures
        !(lex_lt(a, b) && lex_lt(b, a)),
    decreases a.len(),
{
    if a.len() > 0 && b.len() > 0 && a[0] == b[0] {
        lemma_lex_asymmetric(a.drop_first(), b.drop_first());
    }
}

pub proof fn lemma_lex_transitive(a: Seq<u8>, b: Seq<u8>, c: Seq<u8>)
    requires
        lex_lt(a, b),
        lex_lt(b, c),
    ensures
        lex_lt(a, c),
    decreases a.len(),
{
    if a.len() > 0 && a[0] == b[0] && b[0] == c[0] {
        lemma_lex_transitive(a.drop_first(), b.drop_first(), c.drop_first());
    }
}

pub proof fn lemma_lex_total(a: Seq<u8>, b: Seq<u8>)
    ensures
        a == b || lex_lt(a, b) || lex_lt(b, a),
    decreases a.len(),
{
    if a.len() > 0 && b.len() > 0 && a[0] == b[0] {
        lemma_lex_total(a.drop_first(), b.drop_first());
        if a.drop_first() == b.drop_first() {
            assert(a == seq![a[0]] + a.drop_first());
            assert(b == seq![b[0]] + b.drop_first());
        }
    } else if a.len() == 0 && b.len() == 0 {
        assert(a =~= b);
    }
}

/// Two strictly sorted sequences that hold the same keys are the same sequence.
pub proof fn lemma_sorted_unique(s: Seq<Seq<u8>>, t: Seq<Seq<u8>>)
    requires
        strictly_sorted(s),
        strictly_sorted(t),
        s.to_set() == t.to_set(),
    ensures
        s == t,
    decreases s.len(),
{
    if s.len() == 0 {
        if t.len() > 0 {
            assert(t.to_set().contains(t[0]));
        }
        assert(s =~= t);
    } else {
        assert(s.to_set().contains(s[0]));
        assert(t.len() > 0);
        assert(t.to_set().contains(t[0]));
        let i = choose|i: int| 0 <= i < t.len() && t[i] == s[0];
        let j = choose|j: int| 0 <= j < s.len() && s[j] == t[0];
        if i > 0 {
            if j > 0 {
                lemma_lex_asymmetric(s[0], t[0]);
            } else {
                lemma_lex_irreflexive(s[0]);
            }
        }
        assert(s[0] == t[0]);
        let s1 = s.drop_first();
        let t1 = t.drop_first();
        assert forall|k: Seq<u8>| s1.to_set().contains(k) implies t1.to_set().contains(k) by {
            let a = choose|a: int| 0 <= a < s1.len() && s1[a] == k;
            assert(s.to_set().contains(k));
            let b = choose|b: int| 0 <= b < t.len() && t[b] == k;
            assert(lex_lt(s[0], s[a + 1]));
            if b == 0 {
                lemma_lex_irreflexive(k);
            }
            assert(t1[b - 1] == k);
        }
        assert forall|k: Seq<u8>| t1.to_set().contains(k) implies s1.to_set().contains(k) by {
            let a = choose|a: int| 0 <= a < t1.len() && t1[a] == k;
            assert(t.to_set().contains(k));
            let b = choose|b: int| 0 <= b < s.len() && s[b] == k;
            assert(lex_lt(t[0], t[a + 1]));
            if b == 0 {
                lemma_lex_irreflexive(k);
            }
            assert(s1[b - 1] == k);
        }
        assert(s1.to_set() =~= t1.to_set());
        lemma_sorted_unique(s1, t1);
        assert(s =~= seq![s[0]] + s1);
        assert(t =~= seq![t[0]] + t1);
    }
}

/// A fresh copy of a key.
pub fn copy_key(k: &[u8]) -> (r: Vec<u8>)
    ensures
        r@ == k@,
{
    let mut r: Vec<u8> = Vec::new();
    let mut i: usize = 0;
    while i < k.len()
        invariant
            i <= k@.len(),
            r@ == k@.subrange(0, i as int),
        decreases k@.len() - i,
    {
        r.push(k[i]);
        i = i + 1;
        assert(r@ =~= k@.subrange(0, i as int));
    }
    assert(r@ =~= k@);
    r
}

/// A fresh copy of a list of keys.
pub fn copy_keys(v: &Vec<Vec<u8>>) -> (r: Vec<Vec<u8>>)
    ensures
        r.deep_view() == v.deep_view(),
{
    let mut r: Vec<Vec<u8>> = Vec::new();
    let mut i: usize = 0;
    while i < v.len()
        invariant
            i <= v@.len(),
            r.deep_view() == v.deep_view().subrange(0, i as int),
        decreases v@.len() - i,
    {
        let k = copy_key(v[i].as_slice());
        let ghost before = r.deep_view();
        let ghost before_v = r@;
        let ghost kg = k;
        assert(k.deep_view() =~= k@);
        assert(v@[i as int].deep_view() =~= v@[i as int]@);
        r.push(k);
        i = i + 1;
        assert(r@ == before_v.push(kg));
        assert(r.deep_view() =~= before.push(kg@));
        assert(r.deep_view() =~= v.deep_view().subrange(0, i as int));
    }
    assert(r.deep_view() =~= v.deep_view());
    r
}

/// Whether every key sorts strictly before the next one.
pub fn is_strictly_sorted(keys: &Vec<Vec<u8>>) -> (r: bool)
    ensures
        r == strictly_sorted(keys.deep_view()),
{
    let ghost ks = keys.deep_view();
    if keys.len() == 0 {
        return true;
    }
    let mut k: usize = 0;
    while k < keys.len() - 1
        invariant
            ks == keys.deep_view(),
            ks.len() == keys@.len(),
            k < ks.len(),
            forall|i: int, j: int| 0 <= i < j <= k ==> lex_lt(#[trigger] ks[i], #[trigger] ks[j]),
        decreases ks.len() - k,
    {
        assert(keys@[k as int].deep_view() =~= keys@[k as int]@);
        assert(keys@[k + 1].deep_view() =~= keys@[k + 1]@);
        let c = compare_keys(keys[k].as_slice(), keys[k + 1].as_slice());
        if !matches!(c, core::cmp::Ordering::Less) {
            assert(!lex_lt(ks[k as int], ks[k + 1]));
            return false;
        }
        assert forall|i: int, j: int| 0 <= i < j <= k + 1 implies lex_lt(#[trigger] ks[i], #[trigger] ks[j]) by {
            if j == k + 1 && i < k {
                lemma_lex_transitive(ks[i], ks[k as int], ks[j]);
            }
        }
        k = k + 1;
    }
    true
}

/// Compares two keys in lexicographic byte order.
pub fn compare_keys(a: &[u8], b: &[u8]) -> (r: core::cmp::Ordering)
    ensures
        (r is Less) == lex_lt(a@, b@),
        (r is Equal) == (a@ == b@),
        (r is Greater) == lex_lt(b@, a@),
{
    proof {
        lemma_lex_total(a@, b@);
        lemma_lex_asymmetric(a@, b@);
        lemma_lex_irreflexive(a@);
    }
    let mut i: usize = 0;
    assert(a@.skip(0) =~= a@);
    assert(b@.skip(0) =~= b@);
    assert(a@.subrange(0, 0) =~= b@.subrange(0, 0));
    while i < a.len() && i < b.len()
        invariant
            i <= a@.len(),
            i <= b@.len(),
            a@.subrange(0, i as int) == b@.subrange(0, i as int),
            lex_lt(a@, b@) == lex_lt(a@.skip(i as int), b@.skip(i as int)),
            lex_lt(b@, a@) == lex_lt(b@.skip(i as int), a@.skip(i as int)),
        decreases a@.len() - i,
    {
        if a[i] != b[i] {
            if a[i] < b[i] {
                return core::cmp::Ordering::Less;
            } else {
                return core::cmp::Ordering::Greater;
            }
        }
        assert(a@.skip(i as int).drop_first() =~= a@.skip(i + 1));
        assert(b@.skip(i as int).drop_first() =~= b@.skip(i + 1));
        i = i + 1;
        assert(a@.subrange(0, i as int) =~= a@.subrange(0, i - 1).push(a@[i - 1]));
        assert(b@.subrange(0, i as int) =~= b@.subrange(0, i - 1).push(b@[i - 1]));
    }
    if a.len() < b.len() {
        core::cmp::Ordering::Less
    } else if b.len() < a.len() {
        core::cmp::Ordering::Greater
    } else {
        assert(a@ =~= a@.subrange(0, i as int));
        assert(b@ =~= b@.subrange(0, i as int));
        core::cmp::Ordering::Equal
    }
}

} // verus!
