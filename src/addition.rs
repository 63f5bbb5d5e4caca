//! Accumulating synonym declarations, and queuing the result as a numbered
//! pending update.
use vstd::prelude::*;
use vstd::string::*;
use vstd::utf8::encode_utf8;

use crate::changes::{appended, SynonymsChanges};
use crate::outside::{lower_of, lowercase, notify};

verus! {

/// Failures of enqueue and apply.
#[derive(Debug, Clone, Copy, PartialEq, Eq, Structural)]
pub enum UpdateError {
    /// Every update identifier has been handed out.
    UpdateIdOverflow,
    /// A sorted set could not be built from the keys given to it.
    SetConstruction,
}

/// The bytes of each alternative after case folding.
pub open spec fn folded_alternatives(alts: Seq<String>) -> Seq<Seq<u8>> {
    alts.map_values(|a: String| encode_utf8(lower_of(a@)))
}

/// A numbered pending update.
pub struct PendingUpdate {
    pub(crate) id: u64,
    pub(crate) synonyms: SynonymsChanges,
}

/// The queue of pending updates and the identifier the next one receives.
pub struct UpdateQueue {
    pub(crate) next_id: u64,
    pub(crate) pending: Vec<PendingUpdate>,
}

impl UpdateQueue {
    /// The queued updates, oldest first: identifier and change set.
    pub open(crate) spec fn updates(&self) -> Seq<(u64, Map<Seq<u8>, Seq<Seq<u8>>>)> {
        self.pending@.map_values(|p: PendingUpdate| (p.id, p.synonyms@))
    }

    pub open(crate) spec fn next(&self) -> u64 {
        self.next_id
    }

    /// Identifiers strictly increase and stay below the next one; every
    /// queued change set is well formed.
    pub open(crate) spec fn wf(&self) -> bool {
        &&& forall|i: int| 0 <= i < self.pending@.len() ==> (#[trigger] self.pending@[i]).synonyms.wf()
        &&& forall|i: int| 0 <= i < self.pending@.len() ==> (#[trigger] self.pending@[i]).id < self.next_id
        &&& forall|i: int, j: int| 0 <= i < j < self.pending@.len() ==> (#[trigger] self.pending@[i]).id < (#[trigger] self.pending@[j]).id
    }

    pub fn new() -> (r: UpdateQueue)
        ensures
            r.wf(),
            r.next() == 0,
            r.updates() == Seq::<(u64, Map<Seq<u8>, Seq<Seq<u8>>>)>::empty(),
    {
        let r = UpdateQueue { next_id: 0, pending: Vec::new() };
        assert(r.updates() =~= Seq::empty());
        r
    }

    /// An empty queue whose next update receives `next_id`, as when the
    /// counter is read back from storage.
    pub fn with_next_id(next_id: u64) -> (r: UpdateQueue)
        ensures
            r.wf(),
            r.next() == next_id,
            r.updates() == Seq::<(u64, Map<Seq<u8>, Seq<Seq<u8>>>)>::empty(),
    {
        let r = UpdateQueue { next_id, pending: Vec::new() };
        assert(r.updates() =~= Seq::empty());
        r
    }

    /// Whether identifiers strictly increase below the next one and every
    /// queued change set is well formed.
    pub fn is_well_formed(&self) -> (r: bool)
        ensures
            r == self.wf(),
    {
        let mut i: usize = 0;
        while i < self.pending.len()
            invariant
                i <= self.pending@.len(),
                forall|x: int| 0 <= x < i ==> (#[trigger] self.pending@[x]).synonyms.wf(),
                forall|x: int| 0 <= x < i ==> (#[trigger] self.pending@[x]).id < self.next_id,
                forall|x: int, y: int| 0 <= x < y < i ==> (#[trigger] self.pending@[x]).id < (#[trigger] self.pending@[y]).id,
            decreases self.pending@.len() - i,
        {
            let p = &self.pending[i];
            if !p.synonyms.is_well_formed() || p.id >= self.next_id {
                return false;
            }
            if i > 0 && self.pending[i - 1].id >= p.id {
                return false;
            }
            assert forall|x: int, y: int| 0 <= x < y < i + 1 implies (#[trigger] self.pending@[x]).id < (#[trigger] self.pending@[y]).id by {
                if y == i && x < i - 1 {
                    assert(self.pending@[x].id < self.pending@[i - 1].id);
                }
            }
            i = i + 1;
        }
        true
    }

    /// The identifier the next enqueued update receives.
    pub fn next_id(&self) -> (r: u64)
        ensures
            r == self.next(),
    {
        self.next_id
    }

    /// Number of queued updates.
    pub fn len(&self) -> (r: usize)
        ensures
            r == self.updates().len(),
    {
        self.pending.len()
    }

    /// Identifier of the `i`-th queued update.
    pub fn update_id(&self, i: usize) -> (r: u64)
        requires
            i < self.updates().len(),
        ensures
            r == self.updates()[i as int].0,
    {
        self.pending[i].id
    }

    /// Change set of the `i`-th queued update.
    pub fn update_synonyms(&self, i: usize) -> (r: &SynonymsChanges)
        requires
            i < self.updates().len(),
        ensures
            r@ == self.updates()[i as int].1,
    {
        &self.pending[i].synonyms
    }

    /// Appends `synonyms` under the next identifier and advances it, both
    /// or neither: when no identifier is left the queue is left as it was.
    pub fn push(&mut self, synonyms: SynonymsChanges) -> (r: Result<u64, UpdateError>)
        requires
            old(self).wf(),
            synonyms.wf(),
        ensures
            final(self).wf(),
            r is Err <==> old(self).next() == u64::MAX,
            r is Err ==> r == Err::<u64, UpdateError>(UpdateError::UpdateIdOverflow),
            r is Err ==> final(self).next() == old(self).next() && final(self).updates()
                == old(self).updates(),
            r matches Ok(id) ==> {
                &&& id == old(self).next()
                &&& final(self).next() == id + 1
                &&& final(self).updates() == old(self).updates().push((id, synonyms@))
            },
    {
        if self.next_id == u64::MAX {
            return Err(UpdateError::UpdateIdOverflow);
        }
        let id = self.next_id;
        let ghost sv = synonyms@;
        self.pending.push(PendingUpdate { id, synonyms });
        self.next_id = id + 1;
        assert(self.updates() =~= old(self).updates().push((id, sv)));
        Ok(id)
    }
}

/// Builds up one change set from synonym declarations, then queues it.
pub struct SynonymsAddition {
    pub(crate) updates_notifier: crossbeam_channel::Sender<()>,
    pub(crate) synonyms: SynonymsChanges,
}

impl SynonymsAddition {
    /// The change set accumulated so far.
    pub open(crate) spec fn view(&self) -> Map<Seq<u8>, Seq<Seq<u8>>> {
        self.synonyms@
    }

    pub open(crate) spec fn wf(&self) -> bool {
        self.synonyms.wf()
    }

    /// The channel that `finalize` signals.
    pub open(crate) spec fn notifier(&self) -> crossbeam_channel::Sender<()> {
        self.updates_notifier
    }

    pub fn new(updates_notifier: crossbeam_channel::Sender<()>) -> (r: SynonymsAddition)
        ensures
            r.wf(),
            r@ == Map::<Seq<u8>, Seq<Seq<u8>>>::empty(),
            r.notifier() == updates_notifier,
    {
        SynonymsAddition { updates_notifier, synonyms: SynonymsChanges::new() }
    }

    /// Declares `alternatives` as synonyms of `synonym`, a word already in
    /// canonical form. Alternatives are case-folded and appended to those
    /// already declared for the word; nothing is deduplicated here.
    pub fn add_synonym(&mut self, synonym: &str, alternatives: &Vec<String>)
        requires
            old(self).wf(),
        ensures
            final(self).wf(),
            final(self).notifier() == old(self).notifier(),
            final(self)@ == appended(
                old(self)@,
                synonym.spec_bytes(),
                folded_alternatives(alternatives@),
            ),
    {
        let word = synonym.as_bytes_vec();
        let mut folded: Vec<Vec<u8>> = Vec::new();
        let mut i: usize = 0;
        while i < alternatives.len()
            invariant
                i <= alternatives@.len(),
                folded.deep_view() == folded_alternatives(alternatives@).subrange(0, i as int),
            decreases alternatives@.len() - i,
        {
            let lower = lowercase(alternatives[i].as_str());
            let bytes = lower.as_str().as_bytes_vec();
            let ghost before = folded.deep_view();
            let ghost before_v = folded@;
            let ghost b = bytes;
            assert(bytes.deep_view() =~= bytes@);
            folded.push(bytes);
            i = i + 1;
            assert(folded@ == before_v.push(b));
            assert(folded.deep_view() =~= before.push(b@));
            assert(folded.deep_view() =~= folded_alternatives(alternatives@).subrange(0, i as int));
        }
        assert(folded.deep_view() =~= folded_alternatives(alternatives@));
        assert(word.deep_view() =~= word@);
        self.synonyms.append_alternatives(word, folded);
    }

    /// The change set accumulated so far.
    pub fn synonyms(&self) -> (r: &SynonymsChanges)
        ensures
            r@ == self@,
            r.wf() == self.wf(),
    {
        &self.synonyms
    }

    /// Queues the accumulated change set as one update and signals the
    /// applier. Returns the update's identifier; when none is left the queue
    /// is unchanged and no signal is sent.
    pub fn finalize(self, queue: &mut UpdateQueue) -> (r: Result<u64, UpdateError>)
        requires
            self.wf(),
            old(queue).wf(),
        ensures
            final(queue).wf(),
            r is Err <==> old(queue).next() == u64::MAX,
            r is Err ==> r == Err::<u64, UpdateError>(UpdateError::UpdateIdOverflow),
            r is Err ==> final(queue).next() == old(queue).next() && final(queue).updates()
                == old(queue).updates(),
            r matches Ok(id) ==> {
                &&& id == old(queue).next()
                &&& final(queue).next() == id + 1
                &&& final(queue).updates() == old(queue).updates().push((id, self@))
            },
    {
        let SynonymsAddition { updates_notifier, synonyms } = self;
        let id = queue.push(synonyms)?;
        notify(&updates_notifier);
        Ok(id)
    }
}

} // verus!
