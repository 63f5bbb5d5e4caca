//! The pending change set: canonical words, each with the alternatives
//! declared for it, kept in strictly ascending word order.
use vstd::prelude::*;

use crate::order::{compare_keys, lemma_lex_irreflexive, lemma_lex_total, lemma_lex_transitive, lex_lt, strictly_sorted};

verus! {

/// The mathematical form of an entry list: a word and its alternatives.
pub type EntriesView = Seq<(Seq<u8>, Seq<Seq<u8>>)>;

/// The words of an entry list, in list order.
pub open spec fn words_of(s: EntriesView) -> Seq<Seq<u8>> {
    s.map_values(|e: (Seq<u8>, Seq<Seq<u8>>)| e.0)
}

/// The entry list read as a map from word to alternatives.
pub open spec fn to_map(s: EntriesView) -> Map<Seq<u8>, Seq<Seq<u8>>>
    decreases s.len(),
{
    if s.len() == 0 {
        Map::empty()
    } else {
        to_map(s.drop_last()).insert(s.last().0, s.last().1)
    }
}

/// No word occurs twice.
pub open spec fn distinct_words(s: EntriesView) -> bool {
    forall|i: int, j: int| 0 <= i < j < s.len() ==> s[i].0 != s[j].0
}

/// `m` after appending `alts` to the alternatives of `w` (creating the entry
/// if `w` has none).
pub open spec fn appended(
    m: Map<Seq<u8>, Seq<Seq<u8>>>,
    w: Seq<u8>,
    alts: Seq<Seq<u8>>,
) -> Map<Seq<u8>, Seq<Seq<u8>>> {
    if m.contains_key(w) {
        m.insert(w, m[w] + alts)
    } else {
        m.insert(w, alts)
    }
}

pub proof fn lemma_sorted_distinct(s: EntriesView)
    requires
        strictly_sorted(words_of(s)),
    ensures
        distinct_words(s),
{
    assert forall|i: int, j: int| 0 <= i < j < s.len() implies s[i].0 != s[j].0 by {
        assert(lex_lt(words_of(s)[i], words_of(s)[j]));
        lemma_lex_irreflexive(s[i].0);
    }
}

pub proof fn lemma_to_map_domain(s: EntriesView)
    ensures
        to_map(s).dom() == words_of(s).to_set(),
    decreases s.len(),
{
    if s.len() > 0 {
        lemma_to_map_domain(s.drop_last());
        assert(words_of(s) =~= words_of(s.drop_last()).push(s.last().0));
        words_of(s.drop_last()).lemma_push_to_set_commute(s.last().0);
    } else {
        assert(words_of(s).to_set() =~= Set::empty());
    }
    assert(to_map(s).dom() =~= words_of(s).to_set());
}

pub proof fn lemma_to_map_index(s: EntriesView, i: int)
    requires
        distinct_words(s),
        0 <= i < s.len(),
    ensures
        to_map(s).contains_key(s[i].0),
        to_map(s)[s[i].0] == s[i].1,
    decreases s.len(),
{
    if i < s.len() - 1 {
        lemma_to_map_index(s.drop_last(), i);
    }
}

pub proof fn lemma_to_map_update(s: EntriesView, i: int, v: Seq<Seq<u8>>)
    requires
        distinct_words(s),
        0 <= i < s.len(),
    ensures
        to_map(s.update(i, (s[i].0, v))) == to_map(s).insert(s[i].0, v),
    decreases s.len(),
{
    let t = s.update(i, (s[i].0, v));
    if i == s.len() - 1 {
        assert(t.drop_last() =~= s.drop_last());
        assert(to_map(t) =~= to_map(s).insert(s[i].0, v));
    } else {
        assert(t.drop_last() =~= s.drop_last().update(i, (s[i].0, v)));
        lemma_to_map_update(s.drop_last(), i, v);
        assert(to_map(t) =~= to_map(s).insert(s[i].0, v));
    }
}

pub proof fn lemma_to_map_insert(s: EntriesView, pos: int, e: (Seq<u8>, Seq<Seq<u8>>))
    requires
        0 <= pos <= s.len(),
        !words_of(s).contains(e.0),
    ensures
        to_map(s.insert(pos, e)) == to_map(s).insert(e.0, e.1),
    decreases s.len(),
{
    let t = s.insert(pos, e);
    if pos == s.len() {
        assert(t.drop_last() =~= s);
    } else {
        assert(t.drop_last() =~= s.drop_last().insert(pos, e));
        assert(words_of(s)[s.len() - 1] == s.last().0);
        assert forall|x: int| 0 <= x < s.drop_last().len() implies words_of(s.drop_last())[x] != e.0 by {
            assert(words_of(s)[x] == s[x].0);
        }
        lemma_to_map_insert(s.drop_last(), pos, e);
        assert(to_map(t) =~= to_map(s).insert(e.0, e.1));
    }
}

/// A change set: canonical word to alternatives, words strictly ascending.
pub struct SynonymsChanges {
    pub(crate) entries: Vec<(Vec<u8>, Vec<Vec<u8>>)>,
}

impl SynonymsChanges {
    /// The entries, word by word, in ascending order.
    pub open(crate) spec fn entries_view(&self) -> EntriesView {
        self.entries.deep_view()
    }

    /// The words of the change set, ascending.
    pub open spec fn words(&self) -> Seq<Seq<u8>> {
        words_of(self.entries_view())
    }

    pub open spec fn wf(&self) -> bool {
        strictly_sorted(self.words())
    }

    /// Word to the alternatives declared for it.
    pub open spec fn view(&self) -> Map<Seq<u8>, Seq<Seq<u8>>> {
        to_map(self.entries_view())
    }

    pub fn new() -> (r: SynonymsChanges)
        ensures
            r.wf(),
            r@ == Map::<Seq<u8>, Seq<Seq<u8>>>::empty(),
    {
        let r = SynonymsChanges { entries: Vec::new() };
        assert(r.entries_view() =~= Seq::empty());
        r
    }

    /// Whether the words are strictly ascending.
    pub fn is_well_formed(&self) -> (r: bool)
        ensures
            r == self.wf(),
    {
        let ghost ws = self.words();
        if self.entries.len() == 0 {
            return true;
        }
        let mut k: usize = 0;
        while k < self.entries.len() - 1
            invariant
                ws == self.words(),
                ws.len() == self.entries@.len(),
                k < ws.len(),
                forall|i: int, j: int| 0 <= i < j <= k ==> lex_lt(#[trigger] ws[i], #[trigger] ws[j]),
            decreases ws.len() - k,
        {
            assert(self.entries@[k as int].0.deep_view() =~= self.entries@[k as int].0@);
            assert(self.entries@[k + 1].0.deep_view() =~= self.entries@[k + 1].0@);
            let c = compare_keys(self.entries[k].0.as_slice(), self.entries[k + 1].0.as_slice());
            assert(ws[k as int] == self.entries@[k as int].0@);
            assert(ws[k + 1] == self.entries@[k + 1].0@);
            if !matches!(c, core::cmp::Ordering::Less) {
                assert(!lex_lt(ws[k as int], ws[k + 1]));
                return false;
            }
            assert forall|i: int, j: int| 0 <= i < j <= k + 1 implies lex_lt(#[trigger] ws[i], #[trigger] ws[j]) by {
                if j == k + 1 && i < k {
                    lemma_lex_transitive(ws[i], ws[k as int], ws[j]);
                }
            }
            k = k + 1;
        }
        true
    }

    /// Number of distinct words.
    pub fn len(&self) -> (r: usize)
        ensures
            r == self.words().len(),
    {
        self.entries.len()
    }

    /// The word at position `i` in ascending order.
    pub fn word(&self, i: usize) -> (r: &Vec<u8>)
        requires
            i < self.words().len(),
        ensures
            r@ == self.words()[i as int],
    {
        assert(self.entries@[i as int].0.deep_view() =~= self.entries@[i as int].0@);
        &self.entries[i].0
    }

    /// The alternatives of the word at position `i`.
    pub fn alternatives(&self, i: usize) -> (r: &Vec<Vec<u8>>)
        requires
            i < self.words().len(),
        ensures
            r.deep_view() == self.entries_view()[i as int].1,
    {
        &self.entries[i].1
    }

    /// Appends `alts` to the alternatives of `word`, creating its entry in
    /// its place in word order if absent.
    pub fn append_alternatives(&mut self, word: Vec<u8>, alts: Vec<Vec<u8>>)
        requires
            old(self).wf(),
        ensures
            final(self).wf(),
            final(self)@ == appended(old(self)@, word@, alts.deep_view()),
    {
        let ghost s0 = self.entries_view();
        let ghost w = word@;
        proof {
            lemma_sorted_distinct(s0);
            lemma_to_map_domain(s0);
        }
        let mut i: usize = 0;
        let mut found = false;
        while i < self.entries.len()
            invariant_except_break
                !found,
            invariant
                self.entries_view() == s0,
                strictly_sorted(words_of(s0)),
                word@ == w,
                i <= s0.len(),
                forall|x: int| 0 <= x < i ==> lex_lt(#[trigger] words_of(s0)[x], w),
            ensures
                i <= s0.len(),
                forall|x: int| 0 <= x < i ==> lex_lt(#[trigger] words_of(s0)[x], w),
                found ==> i < s0.len() && words_of(s0)[i as int] == w,
                !found ==> i == s0.len() || lex_lt(w, words_of(s0)[i as int]),
            decreases s0.len() - i,
        {
            let c = compare_keys(self.entries[i].0.as_slice(), word.as_slice());
            assert(self.entries@[i as int].0.deep_view() =~= self.entries@[i as int].0@);
            assert(words_of(s0)[i as int] == s0[i as int].0);
            if matches!(c, core::cmp::Ordering::Less) {
                i = i + 1;
            } else {
                found = matches!(c, core::cmp::Ordering::Equal);
                break;
            }
        }
        if found {
            let (kw, mut list) = self.entries.remove(i);
            let ghost old_list = list.deep_view();
            let mut more = alts;
            let ghost more_v = more.deep_view();
            list.append(&mut more);
            assert(list.deep_view() =~= old_list + more_v);
            self.entries.insert(i, (kw, list));
            proof {
                assert(self.entries_view() =~= s0.update(i as int, (w, s0[i as int].1 + more_v)));
                lemma_to_map_index(s0, i as int);
                lemma_to_map_update(s0, i as int, s0[i as int].1 + more_v);
                assert(words_of(self.entries_view()) =~= words_of(s0));
            }
        } else {
            let ghost av = alts.deep_view();
            assert(word.deep_view() =~= word@);
            self.entries.insert(i, (word, alts));
            proof {
                assert(self.entries_view() =~= s0.insert(i as int, (w, av)));
                assert(!words_of(s0).contains(w)) by {
                    assert forall|x: int| 0 <= x < s0.len() implies words_of(s0)[x] != w by {
                        if x < i {
                            lemma_lex_irreflexive(w);
                        } else {
                            lemma_lex_total(words_of(s0)[i as int], w);
                            if x > i {
                                assert(lex_lt(words_of(s0)[i as int], words_of(s0)[x]));
                                lemma_lex_transitive(w, words_of(s0)[i as int], words_of(s0)[x]);
                                lemma_lex_irreflexive(w);
                            } else {
                                lemma_lex_irreflexive(w);
                            }
                        }
                    }
                }
                lemma_to_map_insert(s0, i as int, (w, av));
                let ws = words_of(self.entries_view());
                assert(ws =~= words_of(s0).insert(i as int, w));
                assert forall|x: int, y: int| 0 <= x < y < ws.len() implies lex_lt(
                    #[trigger] ws[x],
                    #[trigger] ws[y],
                ) by {
                    if y < i {
                    } else if y == i {
                    } else if x < i {
                        lemma_lex_total(words_of(s0)[i as int], w);
                        lemma_lex_irreflexive(w);
                        if y - 1 > i {
                            assert(lex_lt(words_of(s0)[i as int], words_of(s0)[y - 1]));
                            lemma_lex_transitive(w, words_of(s0)[i as int], words_of(s0)[y - 1]);
                        }
                        lemma_lex_transitive(ws[x], w, ws[y]);
                    } else if x == i {
                        lemma_lex_total(words_of(s0)[i as int], w);
                        lemma_lex_irreflexive(w);
                        if y - 1 > i {
                            assert(lex_lt(words_of(s0)[i as int], words_of(s0)[y - 1]));
                            lemma_lex_transitive(w, words_of(s0)[i as int], words_of(s0)[y - 1]);
                        }
                    } else {
                        assert(ws[x] == words_of(s0)[x - 1]);
                        assert(ws[y] == words_of(s0)[y - 1]);
                    }
                }
            }
        }
    }
}

} // verus!
