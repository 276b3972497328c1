//! The reference-counted document store: it owns the document states that
//! transactions have produced but not yet consumed, each tagged with the
//! number of consumers still owed a copy, and it decides on every request
//! whether to move the state out or to fork it.
use vstd::prelude::*;
use std::collections::HashMap;
use crate::doc::{doc_fork, doc_text, has_text_obj};

verus! {

broadcast use vstd::std_specs::hash::group_hash_axioms;

struct StoredDoc {
    doc: automerge::AutoCommit,
    retains: usize,
}

/// Maps a transaction identifier to the document state that transaction
/// produced, together with the number of consumers that have not taken it
/// yet.  All stored documents share one designated text object.
pub struct DocStore {
    slots: HashMap<usize, StoredDoc>,
    text_obj: automerge::ObjId,
    forks: u64,
}

impl DocStore {
    /// The identifier of the designated text object of every document this
    /// store holds.
    pub closed spec fn obj(self) -> automerge::ObjId {
        self.text_obj
    }

    /// What the store holds: for each identifier, the text of the stored
    /// document and the number of consumers it still owes.
    pub closed spec fn contents(self) -> Map<usize, (Seq<char>, nat)> {
        Map::new(
            |id: usize| self.slots@.contains_key(id),
            |id: usize|
                (doc_text(self.slots@[id].doc, self.text_obj), self.slots@[id].retains as nat),
        )
    }

    /// How many times the store has forked a document so far.  Moving a
    /// state to its last consumer does not count.
    pub closed spec fn fork_count(self) -> u64 {
        self.forks
    }

    /// Every stored document carries the designated text object, and every
    /// slot still owes at least one consumer.
    pub closed spec fn wf(self) -> bool {
        forall|id: usize| #[trigger]
            self.slots@.contains_key(id) ==> has_text_obj(self.slots@[id].doc, self.text_obj)
                && self.slots@[id].retains >= 1
    }

    /// An empty store whose documents will all carry the text object
    /// `text_obj`.
    pub fn new(text_obj: automerge::ObjId) -> (s: Self)
        ensures
            s.wf(),
            s.obj() == text_obj,
            s.contents() =~= Map::<usize, (Seq<char>, nat)>::empty(),
            s.fork_count() == 0,
    {
        let s = DocStore { slots: HashMap::new(), text_obj, forks: 0 };
        proof {
            assert(s.contents() =~= Map::<usize, (Seq<char>, nat)>::empty());
        }
        s
    }

    /// Inserts a newly produced document state owed to `count` consumers.
    /// The identifier must not be present: each transaction deposits its
    /// state once.
    pub fn deposit(&mut self, id: usize, d: automerge::AutoCommit, count: usize)
        requires
            old(self).wf(),
            count >= 1,
            !old(self).contents().contains_key(id),
            has_text_obj(d, old(self).obj()),
        ensures
            final(self).wf(),
            final(self).obj() == old(self).obj(),
            final(self).fork_count() == old(self).fork_count(),
            final(self).contents() =~= old(self).contents().insert(
                id,
                (doc_text(d, old(self).obj()), count as nat),
            ),
    {
        self.slots.insert(id, StoredDoc { doc: d, retains: count });
    }

    /// Hands the state deposited under `id` to one consumer.  When that
    /// consumer is the last one owed, the state itself is moved out and the
    /// slot disappears; otherwise the remaining-consumer count drops by one
    /// and the consumer receives a fork, so the fork counter rises.  Either
    /// way the text handed out is exactly the text deposited.
    pub fn take(&mut self, id: usize) -> (d: automerge::AutoCommit)
        requires
            old(self).wf(),
            old(self).contents().contains_key(id),
        ensures
            final(self).wf(),
            final(self).obj() == old(self).obj(),
            has_text_obj(d, old(self).obj()),
            doc_text(d, old(self).obj()) == old(self).contents()[id].0,
            old(self).contents()[id].1 >= 1,
            old(self).contents()[id].1 == 1 ==> final(self).contents() =~= old(
                self,
            ).contents().remove(id) && final(self).fork_count() == old(self).fork_count(),
            old(self).contents()[id].1 > 1 ==> final(self).contents() =~= old(
                self,
            ).contents().insert(id, (old(self).contents()[id].0, (old(self).contents()[id].1 - 1) as nat))
                && final(self).fork_count() == (if old(self).fork_count() == u64::MAX {
                u64::MAX
            } else {
                (old(self).fork_count() + 1) as u64
            }),
    {
        let mut slot = self.slots.remove(&id).unwrap();
        if slot.retains == 1 {
            proof {
                assert(self.contents() =~= old(self).contents().remove(id));
            }
            slot.doc
        } else {
            let forked = doc_fork(&mut slot.doc, &self.text_obj);
            let rest = slot.retains - 1;
            self.slots.insert(id, StoredDoc { doc: slot.doc, retains: rest });
            if self.forks != u64::MAX {
                self.forks = self.forks + 1;
            }
            proof {
                assert(self.contents() =~= old(self).contents().insert(
                    id,
                    (old(self).contents()[id].0, (old(self).contents()[id].1 - 1) as nat),
                ));
            }
            forked
        }
    }

    /// The number of forks performed so far.
    pub fn forks_made(&self) -> (n: u64)
        ensures
            n == self.fork_count(),
    {
        self.forks
    }

    /// A borrow of the designated text object's identifier.
    pub fn obj_ref(&self) -> (r: &automerge::ObjId)
        ensures
            *r == self.obj(),
    {
        &self.text_obj
    }
}

} // verus!
