//! The synonym index, and merging a change set into it.
use vstd::prelude::*;

use crate::addition::UpdateError;
use crate::changes::{
    distinct_words, lemma_sorted_distinct, lemma_to_map_domain, lemma_to_map_index,
    lemma_to_map_update, to_map, words_of, EntriesView, SynonymsChanges,
};
use crate::order::{compare_keys, copy_key, copy_keys, is_sorted_set_of, is_strictly_sorted, strictly_sorted};
use crate::outside::{build_set, fst_built, fst_keys, read_keys, sort_dedup, union_sets};

verus! {

/// Stored entries read as word and the keys of its alternatives set.
pub open spec fn stored_entries(v: Seq<(Vec<u8>, fst::Set)>) -> EntriesView {
    v.map_values(|e: (Vec<u8>, fst::Set)| (e.0@, fst_keys(e.1)))
}

/// The words of a key-set, empty where there is none.
pub open spec fn key_set(k: Option<Seq<Seq<u8>>>) -> Set<Seq<u8>> {
    match k {
        Some(s) => s.to_set(),
        None => Set::empty(),
    }
}

/// What applying the change set `add` makes of an index with key-set `k0`
/// and alternatives `a0`: the key-set becomes the sorted union of the old
/// one and the change set's words; each word of the change set gets its
/// alternatives deduplicated and sorted, replacing what it had; every other
/// word keeps its alternatives.
pub open spec fn applied(
    k0: Option<Seq<Seq<u8>>>,
    a0: Map<Seq<u8>, Seq<Seq<u8>>>,
    add: Map<Seq<u8>, Seq<Seq<u8>>>,
    k1: Option<Seq<Seq<u8>>>,
    a1: Map<Seq<u8>, Seq<Seq<u8>>>,
) -> bool {
    &&& k1 is Some
    &&& is_sorted_set_of(k1->Some_0, key_set(k0) + add.dom())
    &&& a1.dom() == a0.dom() + add.dom()
    &&& forall|w: Seq<u8>| add.contains_key(w) ==> is_sorted_set_of(#[trigger] a1[w], add[w].to_set())
    &&& forall|w: Seq<u8>| a0.contains_key(w) && !add.contains_key(w) ==> #[trigger] a1[w] == a0[w]
}

/// The authoritative synonym index: the key-set of all synonym words, and
/// per word the set of its alternatives.
pub struct SynonymIndex {
    pub(crate) main: Option<fst::Set>,
    pub(crate) alternatives: Vec<(Vec<u8>, fst::Set)>,
}

impl SynonymIndex {
    /// The words of the key-set, ascending; `None` before any synonym was added.
    pub open(crate) spec fn keys(&self) -> Option<Seq<Seq<u8>>> {
        keys_of_set(self.main)
    }

    /// Word to its alternatives, ascending.
    pub open(crate) spec fn alternatives_map(&self) -> Map<Seq<u8>, Seq<Seq<u8>>> {
        to_map(stored_entries(self.alternatives@))
    }

    /// Every word of the key-set has an alternatives set and the other way
    /// round; the key-set and each alternatives set are ascending.
    pub open(crate) spec fn wf(&self) -> bool {
        &&& distinct_words(stored_entries(self.alternatives@))
        &&& key_set(self.keys()) == self.alternatives_map().dom()
        &&& forall|w: Seq<u8>| #[trigger] self.alternatives_map().contains_key(w)
            ==> strictly_sorted(self.alternatives_map()[w])
        &&& self.keys() matches Some(k) ==> strictly_sorted(k)
        &&& self.main matches Some(m) ==> fst_built(m)
        &&& forall|i: int| 0 <= i < self.alternatives@.len() ==> fst_built((#[trigger] self.alternatives@[i]).1)
    }

    pub fn new() -> (r: SynonymIndex)
        ensures
            r.wf(),
            r.keys() is None,
            r.alternatives_map() == Map::<Seq<u8>, Seq<Seq<u8>>>::empty(),
    {
        let r = SynonymIndex { main: None, alternatives: Vec::new() };
        assert(stored_entries(r.alternatives@) =~= Seq::empty());
        assert(r.alternatives_map() =~= Map::empty());
        r
    }

    /// The words of the key-set, ascending.
    pub fn synonyms_keys(&self) -> (r: Option<Vec<Vec<u8>>>)
        requires
            self.wf(),
        ensures
            r is Some <==> self.keys() is Some,
            r matches Some(v) ==> v.deep_view() == self.keys()->Some_0,
    {
        match &self.main {
            Some(m) => Some(read_keys(m)),
            None => None,
        }
    }

    /// The alternatives stored for `word`, ascending.
    pub fn alternatives_of(&self, word: &[u8]) -> (r: Option<Vec<Vec<u8>>>)
        requires
            self.wf(),
        ensures
            r is Some <==> self.alternatives_map().contains_key(word@),
            r matches Some(v) ==> v.deep_view() == self.alternatives_map()[word@],
    {
        let found = find_word(&self.alternatives, word);
        proof {
            lemma_to_map_domain(stored_entries(self.alternatives@));
        }
        match found {
            Some(j) => {
                proof {
                    lemma_to_map_index(stored_entries(self.alternatives@), j as int);
                }
                Some(read_keys(&self.alternatives[j].1))
            },
            None => {
                assert(!words_of(stored_entries(self.alternatives@)).to_set().contains(word@)) by {
                    if words_of(stored_entries(self.alternatives@)).contains(word@) {
                        let x = choose|x: int|
                            0 <= x < self.alternatives@.len()
                                && words_of(stored_entries(self.alternatives@))[x] == word@;
                        assert(stored_entries(self.alternatives@)[x].0 == self.alternatives@[x].0@);
                    }
                }
                None
            },
        }
    }
}

proof fn lemma_entry_of_word(s: EntriesView, w: Seq<u8>) -> (k: int)
    requires
        to_map(s).contains_key(w),
    ensures
        0 <= k < s.len(),
        s[k].0 == w,
{
    lemma_to_map_domain(s);
    assert(words_of(s).to_set().contains(w));
    let k = choose|k: int| 0 <= k < words_of(s).len() && words_of(s)[k] == w;
    k
}

/// The sets one apply writes: the new key-set, and per word of the change
/// set, in ascending word order, its alternatives set.
pub struct SynonymsUpdate {
    pub(crate) keyset: fst::Set,
    pub(crate) alternatives: Vec<(Vec<u8>, fst::Set)>,
}

impl SynonymsUpdate {
    /// `self` holds what merging `addition` into a key-set with words
    /// `existing` yields.
    pub open(crate) spec fn built_from(&self, existing: Option<Seq<Seq<u8>>>, addition: SynonymsChanges) -> bool {
        let ev = addition.entries_view();
        &&& is_sorted_set_of(fst_keys(self.keyset), key_set(existing) + addition@.dom())
        &&& fst_built(self.keyset)
        &&& forall|k: int| 0 <= k < ev.len() ==> fst_built((#[trigger] self.alternatives@[k]).1)
        &&& self.alternatives@.len() == ev.len()
        &&& forall|k: int| 0 <= k < ev.len() ==> (#[trigger] self.alternatives@[k]).0@ == ev[k].0
        &&& forall|k: int| 0 <= k < ev.len() ==> is_sorted_set_of(
            fst_keys((#[trigger] self.alternatives@[k]).1),
            ev[k].1.to_set(),
        )
    }

    pub open(crate) spec fn keyset_part(&self) -> fst::Set {
        self.keyset
    }

    pub open(crate) spec fn alternatives_part(&self) -> Seq<(Vec<u8>, fst::Set)> {
        self.alternatives@
    }

    /// The new key-set, and each word with its alternatives set.
    pub fn into_parts(self) -> (r: (fst::Set, Vec<(Vec<u8>, fst::Set)>))
        ensures
            r.0 == self.keyset_part(),
            r.1@ == self.alternatives_part(),
    {
        (self.keyset, self.alternatives)
    }
}

/// An optional key list as a sequence of keys.
pub open spec fn keys_of_list(k: Option<Vec<Vec<u8>>>) -> Option<Seq<Seq<u8>>> {
    match k {
        Some(v) => Some(v.deep_view()),
        None => None,
    }
}

/// The words of an optional key-set.
pub open spec fn keys_of_set(m: Option<fst::Set>) -> Option<Seq<Seq<u8>>> {
    match m {
        Some(s) => Some(fst_keys(s)),
        None => None,
    }
}

/// Builds the sets that merging `addition` into the key-set whose words are
/// `existing` writes: for each word, in ascending order, its alternatives
/// deduplicated and sorted; and the sorted union of `existing` (none counting
/// as empty) with the change set's words, found by a streaming union of two
/// sets. Fails exactly when `existing` is not strictly ascending.
pub fn build_synonyms_update(existing: &Option<Vec<Vec<u8>>>, addition: &SynonymsChanges) -> (r: Result<SynonymsUpdate, UpdateError>)
    requires
        addition.wf(),
    ensures
        r is Ok <==> (existing matches Some(k) ==> strictly_sorted(k.deep_view())),
        r is Err ==> r == Err::<SynonymsUpdate, UpdateError>(UpdateError::SetConstruction),
        r matches Ok(u) ==> u.built_from(keys_of_list(*existing), *addition),
{
    let existing_set = match existing {
        Some(keys) => {
            if !is_strictly_sorted(keys) {
                return Err(UpdateError::SetConstruction);
            }
            match build_set(keys) {
                Ok(s) => Some(s),
                Err(_) => {
                    return Err(UpdateError::SetConstruction);
                },
            }
        },
        None => None,
    };
    assert(existing_set matches Some(s) ==> fst_built(s) && fst_keys(s).to_set()
        == key_set(keys_of_list(*existing)));
    assert(existing_set is None ==> existing is None);
    let ghost ev = addition.entries_view();
    let n = addition.len();
    let mut staged: Vec<(Vec<u8>, fst::Set)> = Vec::new();
    let mut delta: Vec<Vec<u8>> = Vec::new();
    let mut i: usize = 0;
    while i < n
        invariant
            n == ev.len(),
            ev == addition.entries_view(),
            addition.wf(),
            i <= n,
            delta.deep_view() == words_of(ev).subrange(0, i as int),
            staged@.len() == i,
            forall|k: int| 0 <= k < i ==> (#[trigger] staged@[k]).0@ == ev[k].0,
            forall|k: int| 0 <= k < i ==> is_sorted_set_of(fst_keys((#[trigger] staged@[k]).1), ev[k].1.to_set()),
            forall|k: int| 0 <= k < i ==> fst_built((#[trigger] staged@[k]).1),
            existing_set matches Some(s) ==> fst_built(s) && fst_keys(s).to_set() == key_set(keys_of_list(*existing)),
            existing_set is None ==> existing is None,
            existing matches Some(k) ==> strictly_sorted(k.deep_view()),
        decreases n - i,
    {
        let word = addition.word(i);
        let alts = sort_dedup(copy_keys(addition.alternatives(i)));
        let set = match build_set(&alts) {
            Ok(s) => s,
            Err(_) => {
                return Err(UpdateError::SetConstruction);
            },
        };
        let w1 = copy_key(word.as_slice());
        let w2 = copy_key(word.as_slice());
        let ghost before = delta.deep_view();
        let ghost before_v = delta@;
        let ghost wg = w2;
        staged.push((w1, set));
        delta.push(w2);
        i = i + 1;
        assert(wg.deep_view() =~= wg@);
        assert(delta@ == before_v.push(wg));
        assert(delta.deep_view() =~= before.push(wg@));
        assert(delta.deep_view() =~= words_of(ev).subrange(0, i as int));
    }
    assert(delta.deep_view() =~= words_of(ev));
    let delta_set = match build_set(&delta) {
        Ok(d) => d,
        Err(_) => {
            return Err(UpdateError::SetConstruction);
        },
    };
    let built = match &existing_set {
        Some(m) => union_sets(m, &delta_set),
        None => Ok(delta_set),
    };
    let keyset = match built {
        Ok(s) => s,
        Err(_) => {
            return Err(UpdateError::SetConstruction);
        },
    };
    proof {
        lemma_to_map_domain(ev);
        assert(key_set(keys_of_list(*existing)) + addition@.dom() =~= fst_keys(keyset).to_set());
    }
    Ok(SynonymsUpdate { keyset, alternatives: staged })
}

/// Merges the change set `addition` into `index`: stores each word's
/// alternatives, deduplicated and sorted, in place of what the word had, and
/// makes the key-set the sorted union of the old key-set and the change
/// set's words. The change set's words are ascending, so every set builds
/// and the merge succeeds.
pub fn apply_synonyms_addition(index: &mut SynonymIndex, addition: &SynonymsChanges) -> (r: Result<(), UpdateError>)
    requires
        old(index).wf(),
        addition.wf(),
    ensures
        final(index).wf(),
        r is Ok,
        applied(
            old(index).keys(),
            old(index).alternatives_map(),
            addition@,
            final(index).keys(),
            final(index).alternatives_map(),
        ),
{
    let ghost ev = addition.entries_view();
    let existing = match &index.main {
        Some(m) => Some(read_keys(m)),
        None => None,
    };
    assert(keys_of_list(existing) == old(index).keys());
    let update = match build_synonyms_update(&existing, addition) {
        Ok(u) => u,
        Err(e) => {
            return Err(e);
        },
    };
    let n = addition.len();
    let (new_main, mut staged) = update.into_parts();
    proof {
        lemma_to_map_domain(ev);
    }
    let ghost sv = stored_entries(staged@);
    let ghost m0 = index.alternatives_map();
    assert(words_of(sv) =~= words_of(ev));
    proof {
        lemma_sorted_distinct(ev);
    }
    assert(distinct_words(sv));
    index.main = Some(new_main);
    let mut k: usize = 0;
    assert(sv.subrange(0, 0) =~= Seq::empty());
    assert(m0.union_prefer_right(to_map(sv.subrange(0, 0))) =~= m0);
    assert(stored_entries(staged@) =~= sv.subrange(0, n as int));
    while k < n
        invariant
            n == sv.len(),
            k <= n,
            distinct_words(sv),
            staged@.len() == n - k,
            stored_entries(staged@) == sv.subrange(k as int, n as int),
            distinct_words(stored_entries(index.alternatives@)),
            index.alternatives_map() == m0.union_prefer_right(to_map(sv.subrange(0, k as int))),
            index.main == Some(new_main),
            fst_built(new_main),
            forall|x: int| 0 <= x < index.alternatives@.len() ==> fst_built((#[trigger] index.alternatives@[x]).1),
            forall|x: int| 0 <= x < staged@.len() ==> fst_built((#[trigger] staged@[x]).1),
        decreases n - k,
    {
        let ghost a_before = stored_entries(index.alternatives@);
        let ghost alt_before = index.alternatives@;
        let ghost staged_before = staged@;
        let entry = staged.remove(0);
        assert(entry.0@ == sv[k as int].0 && fst_keys(entry.1) == sv[k as int].1) by {
            assert(stored_entries(staged_before)[0] == sv.subrange(k as int, n as int)[0]);
        }
        assert forall|x: int| 0 <= x < staged@.len() implies stored_entries(staged@)[x] == sv[k + 1 + x] by {
            assert(staged@[x] == staged_before[x + 1]);
            assert(stored_entries(staged_before)[x + 1] == sv.subrange(k as int, n as int)[x + 1]);
        }
        assert(stored_entries(staged@) =~= sv.subrange(k + 1, n as int));
        let ghost e = sv[k as int];
        let found = find_word(&index.alternatives, entry.0.as_slice());
        match found {
            Some(j) => {
                index.alternatives.remove(j);
                index.alternatives.insert(j, entry);
                proof {
                    assert(stored_entries(index.alternatives@) =~= a_before.update(j as int, (a_before[j as int].0, e.1)));
                    lemma_to_map_update(a_before, j as int, e.1);
                    assert(words_of(stored_entries(index.alternatives@)) =~= words_of(a_before));
                    assert(distinct_words(stored_entries(index.alternatives@)));
                }
            },
            None => {
                index.alternatives.push(entry);
                proof {
                    let a_after = stored_entries(index.alternatives@);
                    assert(a_after =~= a_before.push(e));
                    assert(a_after.drop_last() =~= a_before);
                    assert(distinct_words(a_after)) by {
                        assert forall|x: int, y: int| 0 <= x < y < a_after.len() implies a_after[x].0 != a_after[y].0 by {
                            if y == a_before.len() {
                                assert(a_before[x].0 == alt_before[x].0@);
                            }
                        }
                    }
                }
            },
        }
        k = k + 1;
        proof {
            assert(sv.subrange(0, k as int).drop_last() =~= sv.subrange(0, k - 1));
            assert(index.alternatives_map() =~= m0.union_prefer_right(to_map(sv.subrange(0, k as int))));
        }
    }
    assert(sv.subrange(0, n as int) =~= sv);
    proof {
        lemma_to_map_domain(sv);
        assert(index.alternatives_map().dom() =~= m0.dom() + addition@.dom());
        assert forall|w: Seq<u8>| addition@.contains_key(w) implies is_sorted_set_of(
            #[trigger] index.alternatives_map()[w],
            addition@[w].to_set(),
        ) by {
            let x = lemma_entry_of_word(ev, w);
            lemma_to_map_index(ev, x);
            lemma_to_map_index(sv, x);
        }
    }
    Ok(())
}

/// Position of `w` among the stored words.
fn find_word(v: &Vec<(Vec<u8>, fst::Set)>, w: &[u8]) -> (r: Option<usize>)
    ensures
        r matches Some(j) ==> j < v@.len() && v@[j as int].0@ == w@,
        r is None ==> forall|j: int| 0 <= j < v@.len() ==> (#[trigger] v@[j]).0@ != w@,
{
    let mut j: usize = 0;
    while j < v.len()
        invariant
            j <= v@.len(),
            forall|x: int| 0 <= x < j ==> (#[trigger] v@[x]).0@ != w@,
        decreases v@.len() - j,
    {
        let c = compare_keys(v[j].0.as_slice(), w);
        if matches!(c, core::cmp::Ordering::Equal) {
            return Some(j);
        }
        j = j + 1;
    }
    None
}

} // verus!
