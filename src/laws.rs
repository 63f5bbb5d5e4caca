//! Properties that relate several calls of the library.
use vstd::prelude::*;

use crate::apply::{applied, key_set};
use crate::changes::appended;
use crate::order::{is_sorted_set_of, lemma_sorted_unique};

verus! {

/// The change set made by declaring each `(word, alternatives)` of `ops` in
/// turn, starting from `m`.
pub open spec fn accumulate(
    m: Map<Seq<u8>, Seq<Seq<u8>>>,
    ops: Seq<(Seq<u8>, Seq<Seq<u8>>)>,
) -> Map<Seq<u8>, Seq<Seq<u8>>>
    decreases ops.len(),
{
    if ops.len() == 0 {
        m
    } else {
        appended(accumulate(m, ops.drop_last()), ops.last().0, ops.last().1)
    }
}

/// All alternatives declared for `w` in `ops`, in declaration order.
pub open spec fn declared_for(ops: Seq<(Seq<u8>, Seq<Seq<u8>>)>, w: Seq<u8>) -> Seq<Seq<u8>>
    decreases ops.len(),
{
    if ops.len() == 0 {
        Seq::empty()
    } else if ops.last().0 == w {
        declared_for(ops.drop_last(), w) + ops.last().1
    } else {
        declared_for(ops.drop_last(), w)
    }
}

/// After any sequence of declarations from an empty change set, the words
/// present are exactly those declared, and each holds the concatenation of
/// everything declared for it, in order, duplicates kept.
pub proof fn lemma_accumulate_concatenates(ops: Seq<(Seq<u8>, Seq<Seq<u8>>)>, w: Seq<u8>)
    ensures
        accumulate(Map::empty(), ops).contains_key(w) <==> exists|i: int|
            0 <= i < ops.len() && (#[trigger] ops[i]).0 == w,
        accumulate(Map::empty(), ops).contains_key(w) ==> accumulate(Map::empty(), ops)[w]
            == declared_for(ops, w),
        !accumulate(Map::empty(), ops).contains_key(w) ==> declared_for(ops, w) == Seq::<Seq<u8>>::empty(),
    decreases ops.len(),
{
    if ops.len() > 0 {
        let prev = ops.drop_last();
        lemma_accumulate_concatenates(prev, w);
        if exists|i: int| 0 <= i < prev.len() && (#[trigger] prev[i]).0 == w {
            let i = choose|i: int| 0 <= i < prev.len() && (#[trigger] prev[i]).0 == w;
            assert(ops[i] == prev[i]);
        }
        if exists|i: int| 0 <= i < ops.len() && (#[trigger] ops[i]).0 == w {
            let i = choose|i: int| 0 <= i < ops.len() && (#[trigger] ops[i]).0 == w;
            if i < prev.len() {
                assert(prev[i] == ops[i]);
            }
        }
        if !accumulate(Map::empty(), prev).contains_key(w) && ops.last().0 == w {
            assert(declared_for(ops, w) =~= ops.last().1);
        }
    }
}

/// Applying the same change set twice leaves the index as applying it once:
/// the key-set and every alternatives set are the same.
pub proof fn lemma_apply_idempotent(
    k0: Option<Seq<Seq<u8>>>,
    a0: Map<Seq<u8>, Seq<Seq<u8>>>,
    add: Map<Seq<u8>, Seq<Seq<u8>>>,
    k1: Option<Seq<Seq<u8>>>,
    a1: Map<Seq<u8>, Seq<Seq<u8>>>,
    k2: Option<Seq<Seq<u8>>>,
    a2: Map<Seq<u8>, Seq<Seq<u8>>>,
)
    requires
        applied(k0, a0, add, k1, a1),
        applied(k1, a1, add, k2, a2),
    ensures
        k2 == k1,
        a2 == a1,
{
    assert(key_set(k1) + add.dom() =~= key_set(k0) + add.dom());
    lemma_sorted_unique(k2->Some_0, k1->Some_0);
    assert forall|w: Seq<u8>| a2.contains_key(w) implies a2[w] == a1[w] by {
        if add.contains_key(w) {
            lemma_sorted_unique(a2[w], a1[w]);
        }
    }
    assert(a2.dom() =~= a1.dom());
    assert(a2 =~= a1);
}

/// The key-set after an apply is exactly the sorted, deduplicated union of
/// the key-set before (none counting as empty) and the change set's words.
pub proof fn lemma_apply_key_set_is_union(
    k0: Option<Seq<Seq<u8>>>,
    a0: Map<Seq<u8>, Seq<Seq<u8>>>,
    add: Map<Seq<u8>, Seq<Seq<u8>>>,
    k1: Option<Seq<Seq<u8>>>,
    a1: Map<Seq<u8>, Seq<Seq<u8>>>,
    u: Seq<Seq<u8>>,
)
    requires
        applied(k0, a0, add, k1, a1),
        is_sorted_set_of(u, key_set(k0) + add.dom()),
    ensures
        k1 == Some(u),
{
    lemma_sorted_unique(k1->Some_0, u);
}

/// A word written by an apply reads back as exactly the set of alternatives
/// it was given, ascending and without duplicates.
pub proof fn lemma_alternatives_round_trip(
    k0: Option<Seq<Seq<u8>>>,
    a0: Map<Seq<u8>, Seq<Seq<u8>>>,
    add: Map<Seq<u8>, Seq<Seq<u8>>>,
    k1: Option<Seq<Seq<u8>>>,
    a1: Map<Seq<u8>, Seq<Seq<u8>>>,
    w: Seq<u8>,
)
    requires
        applied(k0, a0, add, k1, a1),
        add.contains_key(w),
    ensures
        a1.contains_key(w),
        is_sorted_set_of(a1[w], add[w].to_set()),
{
}

} // verus!
