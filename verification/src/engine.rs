//! The persistence engine: the load, update, checkpoint and evict
//! lifecycle of the documents resident in memory.
//!
//! The engine is the only writer of the store. It logs every update before
//! the update becomes part of the state in memory, so at every moment the
//! store reconstructs each resident document. A checkpoint writes the
//! snapshot first and removes the log records it supersedes only
//! afterwards; whichever write fails, the store still describes the
//! document.
//!
//! The engine does not merge. Whoever submits an update hands over, with
//! it, the state that the document library makes of the current state and
//! the update. A document loaded from a log comes with the logged updates
//! pending: they are merged one by one, outside, and each result is handed
//! to `absorb`. Until then the document does not accept updates.
//!
//! Time is a number of milliseconds supplied by the caller. Calls on one
//! engine are serialised by its owner, which gives each document a single
//! order of updates.

use vstd::prelude::*;
use crate::codec::{copy_bytes, views_of};
use crate::durable::{
    agree_at, base_of, cold, differ_within, durable, has_update, is_top, lemma_absorb,
    lemma_append, lemma_differ_chain, lemma_differ_same, lemma_durable_bounded,
    lemma_durable_same, lemma_prune, lemma_snapshot, lemma_top_unique, loadable, logged,
    same_for, tail, Image,
};
use crate::keys::{
    decode_snapshot, encode_snapshot, key_seq, lemma_key_seq, owned_by, seq_of_key,
    snapshot_key_of, update_key, update_key_of, update_prefix, update_prefix_of, DocId,
};
use crate::store::{is_listing, Store, StoreError};

verus! {

/// Why an engine operation did not take place.
#[derive(Clone, Copy, Debug, PartialEq, Eq, Structural)]
pub enum EngineError {
    /// The store failed; the operation can be tried again.
    Store(StoreError),
    /// The persisted state of the document is corrupt.
    DocLoad,
    /// The document is not resident.
    NotResident,
    /// The document has logged updates that are yet to be merged.
    Lagging,
    /// The document has no update that is yet to be merged.
    NothingPending,
    /// The document has used up its sequence numbers.
    SequenceExhausted,
    /// The document cannot take another session.
    TooManySessions,
    /// The document has no session to release.
    NoSessions,
    /// The document still has sessions attached.
    Busy,
    /// The document has been active too recently.
    NotIdle,
}

/// A resident document as seen from outside the engine.
pub struct DocView {
    /// The merged state.
    pub state: Seq<u8>,
    /// The sequence number of the last update merged into the state.
    pub merged_seq: nat,
    /// The updates accepted after that one, which are yet to be merged,
    /// oldest first.
    pub pending: Seq<Seq<u8>>,
    /// The state has changed since the last checkpoint.
    pub dirty: bool,
    /// The number of sessions attached.
    pub sessions: nat,
    /// When the document was last attached to, detached from or updated.
    pub last_activity: nat,
}

impl DocView {
    /// The sequence number of the last update accepted; the next update
    /// gets the number after it.
    pub open spec fn last_seq(self) -> nat {
        self.merged_seq + self.pending.len()
    }

    /// What the store must reconstruct for this document.
    pub open spec fn image(self) -> Image {
        Image { state: self.state, merged_seq: self.merged_seq, pending: self.pending }
    }

    /// The document has no session and has been inactive for `threshold`.
    pub open spec fn idle(self, now: nat, threshold: nat) -> bool {
        self.sessions == 0 && self.last_activity + threshold <= now
    }

    /// The store reconstructs this document, and if the document is clean
    /// a cold load yields it as it is.
    pub open spec fn kept_by(self, contents: Map<Seq<u8>, Seq<u8>>, doc: Seq<u8>) -> bool {
        durable(contents, doc, self.image()) && (!self.dirty ==> cold(contents, doc, self.image()))
    }

    /// What a checkpoint pass that leaves the document dirty or clean, as
    /// `dirty` says, has done to the keys of the document: nothing for a
    /// document that was clean; for one that is saved, its state is the
    /// snapshot and no record that the snapshot supersedes is left; for one
    /// that could not be saved, nothing or the snapshot is written.
    pub open spec fn checkpointed(
        self,
        dirty: bool,
        before: Map<Seq<u8>, Seq<u8>>,
        after: Map<Seq<u8>, Seq<u8>>,
        doc: Seq<u8>,
    ) -> bool {
        if !self.dirty {
            !dirty && same_for(before, after, doc)
        } else if !dirty {
            self.saved_in(after, doc)
        } else {
            same_for(before, after, doc) || base_of(after, doc) == Some(
                (self.merged_seq, self.state),
            )
        }
    }

    /// The snapshot of the document in `contents` is its state, and no
    /// record that the snapshot supersedes is left in the log.
    pub open spec fn saved_in(self, contents: Map<Seq<u8>, Seq<u8>>, doc: Seq<u8>) -> bool {
        &&& base_of(contents, doc) == Some((self.merged_seq, self.state))
        &&& forall|s: nat| s <= self.merged_seq ==> !#[trigger] has_update(contents, doc, s)
    }
}

/// The instance of a document in memory.
pub struct ResidentDocument {
    id: DocId,
    state: Vec<u8>,
    merged_seq: u64,
    pending: Vec<Vec<u8>>,
    dirty: bool,
    sessions: usize,
    last_activity: u64,
}

impl ResidentDocument {
    spec fn summary(&self) -> DocView {
        DocView {
            state: self.state@,
            merged_seq: self.merged_seq as nat,
            pending: views_of(self.pending@),
            dirty: self.dirty,
            sessions: self.sessions as nat,
            last_activity: self.last_activity as nat,
        }
    }
}

/// A reference to a resident document, handed out by [`Engine::load`].
pub struct Handle {
    doc: DocId,
}

impl Handle {
    /// The name of the document referred to.
    pub closed spec fn doc(&self) -> Seq<u8> {
        self.doc@
    }

    /// The document referred to.
    pub fn doc_id(&self) -> (id: &DocId)
        ensures
            id@ == self.doc(),
    {
        &self.doc
    }

    /// Another reference to the same document.
    pub fn duplicate(&self) -> (h: Handle)
        ensures
            h.doc() == self.doc(),
    {
        Handle { doc: self.doc.duplicate() }
    }
}

spec fn distinct(docs: Seq<ResidentDocument>) -> bool {
    forall|i: int, j: int| 0 <= i < j < docs.len() ==> docs[i].id@ != docs[j].id@
}

spec fn slot(docs: Seq<ResidentDocument>, doc: Seq<u8>) -> int {
    choose|i: int| 0 <= i < docs.len() && docs[i].id@ == doc
}

spec fn docs_map(docs: Seq<ResidentDocument>) -> Map<Seq<u8>, DocView> {
    Map::new(
        |k: Seq<u8>| exists|i: int| 0 <= i < docs.len() && docs[i].id@ == k,
        |k: Seq<u8>| docs[slot(docs, k)].summary(),
    )
}

proof fn lemma_docs_map(docs: Seq<ResidentDocument>)
    requires
        distinct(docs),
    ensures
        forall|i: int|
            0 <= i < docs.len() ==> docs_map(docs).contains_key(#[trigger] docs[i].id@)
                && docs_map(docs)[docs[i].id@] == docs[i].summary(),
        forall|k: Seq<u8>| #[trigger]
            docs_map(docs).contains_key(k) ==> 0 <= slot(docs, k) < docs.len() && docs[slot(
                docs,
                k,
            )].id@ == k,
{
    assert forall|i: int| 0 <= i < docs.len() implies docs_map(docs).contains_key(
        #[trigger] docs[i].id@,
    ) && docs_map(docs)[docs[i].id@] == docs[i].summary() by {
        let k = docs[i].id@;
        let j = slot(docs, k);
        assert(0 <= j < docs.len() && docs[j].id@ == k);
        assert(j == i);
    }
}

proof fn lemma_docs_replaced(
    before: Seq<ResidentDocument>,
    after: Seq<ResidentDocument>,
    at: int,
)
    requires
        distinct(before),
        0 <= at < before.len(),
        after.len() == before.len(),
        after[at].id@ == before[at].id@,
        forall|i: int| 0 <= i < before.len() && i != at ==> after[i] == before[i],
    ensures
        distinct(after),
        docs_map(after) == docs_map(before).insert(after[at].id@, after[at].summary()),
{
    assert forall|i: int, j: int| 0 <= i < j < after.len() implies after[i].id@
        != after[j].id@ by {
        assert(before[i].id@ != before[j].id@);
    }
    lemma_docs_map(before);
    lemma_docs_map(after);
    let goal = docs_map(before).insert(after[at].id@, after[at].summary());
    assert forall|k: Seq<u8>| docs_map(after).contains_key(k) <==> goal.contains_key(k) by {
        if docs_map(after).contains_key(k) {
            let p = slot(after, k);
            assert(before[p].id@ == k);
        }
        if docs_map(before).contains_key(k) {
            let p = slot(before, k);
            assert(after[p].id@ == k);
        }
    }
    assert forall|k: Seq<u8>| docs_map(after).contains_key(k) implies docs_map(after)[k]
        == goal[k] by {
        let p = slot(after, k);
        if p != at {
            assert(before[p].id@ == k);
            assert(after[p] == before[p]);
        }
    }
    assert(docs_map(after) =~= goal);
}

proof fn lemma_docs_pushed(before: Seq<ResidentDocument>, doc: ResidentDocument)
    requires
        distinct(before),
        forall|i: int| 0 <= i < before.len() ==> before[i].id@ != doc.id@,
    ensures
        distinct(before.push(doc)),
        docs_map(before.push(doc)) == docs_map(before).insert(doc.id@, doc.summary()),
        !docs_map(before).contains_key(doc.id@),
{
    let after = before.push(doc);
    lemma_docs_map(before);
    lemma_docs_map(after);
    let goal = docs_map(before).insert(doc.id@, doc.summary());
    assert forall|k: Seq<u8>| docs_map(after).contains_key(k) <==> goal.contains_key(k) by {
        if docs_map(after).contains_key(k) {
            let p = slot(after, k);
            if p < before.len() {
                assert(before[p].id@ == k);
            }
        }
        if docs_map(before).contains_key(k) {
            let p = slot(before, k);
            assert(after[p].id@ == k);
        }
        if k == doc.id@ {
            assert(after[before.len() as int].id@ == k);
        }
    }
    assert forall|k: Seq<u8>| docs_map(after).contains_key(k) implies docs_map(after)[k]
        == goal[k] by {
        let p = slot(after, k);
        if p < before.len() {
            assert(before[p].id@ == k);
            assert(after[p] == before[p]);
        }
    }
    assert(docs_map(after) =~= goal);
}

proof fn lemma_docs_removed(before: Seq<ResidentDocument>, at: int)
    requires
        distinct(before),
        0 <= at < before.len(),
    ensures
        distinct(before.remove(at)),
        docs_map(before.remove(at)) == docs_map(before).remove(before[at].id@),
{
    let after = before.remove(at);
    assert forall|i: int, j: int| 0 <= i < j < after.len() implies after[i].id@
        != after[j].id@ by {
        let bi = if i < at { i } else { i + 1 };
        let bj = if j < at { j } else { j + 1 };
        assert(before[bi].id@ != before[bj].id@);
    }
    lemma_docs_map(before);
    lemma_docs_map(after);
    let goal = docs_map(before).remove(before[at].id@);
    assert forall|k: Seq<u8>| docs_map(after).contains_key(k) <==> goal.contains_key(k) by {
        if docs_map(after).contains_key(k) {
            let p = slot(after, k);
            let bp = if p < at { p } else { p + 1 };
            assert(before[bp].id@ == k);
        }
        if goal.contains_key(k) {
            let p = slot(before, k);
            if p < at {
                assert(after[p].id@ == k);
            } else {
                assert(after[p - 1].id@ == k);
            }
        }
    }
    assert forall|k: Seq<u8>| docs_map(after).contains_key(k) implies docs_map(after)[k]
        == goal[k] by {
        let p = slot(after, k);
        let bp = if p < at { p } else { p + 1 };
        assert(after[p] == before[bp]);
        assert(before[bp].id@ == k);
    }
    assert(docs_map(after) =~= goal);
}

/// A write that touches keys of one document leaves every other resident
/// document as the store kept it.
proof fn lemma_frame(
    before: Map<Seq<u8>, Seq<u8>>,
    after: Map<Seq<u8>, Seq<u8>>,
    doc: Seq<u8>,
    residents: Map<Seq<u8>, DocView>,
)
    requires
        differ_within(before, after, doc),
        forall|d: Seq<u8>| #[trigger] residents.contains_key(d) ==> residents[d].kept_by(before, d),
    ensures
        forall|d: Seq<u8>| #[trigger]
            residents.contains_key(d) && d != doc ==> residents[d].kept_by(after, d),
{
    assert forall|d: Seq<u8>| #[trigger] residents.contains_key(d) && d != doc implies residents[d].kept_by(
        after,
        d,
    ) by {
        lemma_differ_same(before, after, doc, d);
        lemma_durable_same(before, after, d, residents[d].image());
    }
}

/// Agreement on the keys of a document carries over a chain of stores.
proof fn lemma_same_chain(
    a: Map<Seq<u8>, Seq<u8>>,
    b: Map<Seq<u8>, Seq<u8>>,
    c: Map<Seq<u8>, Seq<u8>>,
    doc: Seq<u8>,
)
    requires
        same_for(a, b, doc),
        same_for(b, c, doc),
    ensures
        same_for(a, c, doc),
{
    assert forall|s: nat| s <= u64::MAX implies a.contains_key(#[trigger] update_key(doc, s))
        == c.contains_key(update_key(doc, s)) && (a.contains_key(update_key(doc, s))
        ==> a[update_key(doc, s)] == c[update_key(doc, s)]) by {
        assert(a.contains_key(update_key(doc, s)) == b.contains_key(update_key(doc, s)));
        assert(b.contains_key(update_key(doc, s)) == c.contains_key(update_key(doc, s)));
    }
}

/// A store agrees with itself.
proof fn lemma_same_self(a: Map<Seq<u8>, Seq<u8>>, doc: Seq<u8>)
    ensures
        same_for(a, a, doc),
        differ_within(a, a, doc),
{
    assert forall|k: Seq<u8>| !owned_by(doc, k) implies #[trigger] agree_at(a, a, k) by {}
}

/// What a checkpoint pass has done to a document is not undone by writes
/// to the keys of another document.
proof fn lemma_checkpointed_same(
    view: DocView,
    dirty: bool,
    before: Map<Seq<u8>, Seq<u8>>,
    mid: Map<Seq<u8>, Seq<u8>>,
    after: Map<Seq<u8>, Seq<u8>>,
    doc: Seq<u8>,
)
    requires
        view.checkpointed(dirty, before, mid, doc),
        same_for(mid, after, doc),
    ensures
        view.checkpointed(dirty, before, after, doc),
{
    lemma_durable_same(mid, after, doc, view.image());
    if same_for(before, mid, doc) {
        lemma_same_chain(before, mid, after, doc);
    }
    if view.saved_in(mid, doc) {
        assert forall|s: nat| s <= view.merged_seq implies !#[trigger] has_update(after, doc, s) by {
            assert(!has_update(mid, doc, s));
        }
    }
}

/// The persistence engine over a store of type `S`.
pub struct Engine<S: Store> {
    store: S,
    docs: Vec<ResidentDocument>,
    idle_threshold: u64,
}

impl<S: Store> Engine<S> {
    /// What the store holds.
    pub closed spec fn contents(&self) -> Map<Seq<u8>, Seq<u8>> {
        self.store.contents()
    }

    /// The store cannot fail.
    pub closed spec fn reliable(&self) -> bool {
        self.store.reliable()
    }

    /// The resident documents, by name.
    pub closed spec fn residents(&self) -> Map<Seq<u8>, DocView> {
        docs_map(self.docs@)
    }

    /// How long a document without sessions stays resident.
    pub closed spec fn idle_threshold(&self) -> u64 {
        self.idle_threshold
    }

    /// No document is resident twice.
    pub closed spec fn single_authority(&self) -> bool {
        distinct(self.docs@)
    }

    /// The engine's invariant: each document is resident at most once, and
    /// the store reconstructs each resident document.
    pub open spec fn wf(&self) -> bool {
        &&& self.single_authority()
        &&& forall|doc: Seq<u8>| #[trigger]
            self.residents().contains_key(doc) ==> self.residents()[doc].kept_by(
                self.contents(),
                doc,
            )
    }

    /// An engine over `store` with no resident document.
    pub fn new(store: S, idle_threshold: u64) -> (engine: Engine<S>)
        ensures
            engine.wf(),
            engine.contents() == store.contents(),
            engine.reliable() == store.reliable(),
            engine.residents() == Map::<Seq<u8>, DocView>::empty(),
            engine.idle_threshold() == idle_threshold,
    {
        let engine = Engine { store, docs: Vec::new(), idle_threshold };
        assert(engine.residents() =~= Map::<Seq<u8>, DocView>::empty());
        engine
    }

    /// Gives the store back, as when the process ends.
    pub fn into_store(self) -> (store: S)
        ensures
            store.contents() == self.contents(),
            store.reliable() == self.reliable(),
    {
        self.store
    }

    /// The store.
    pub fn store(&self) -> (store: &S)
        ensures
            store.contents() == self.contents(),
            store.reliable() == self.reliable(),
    {
        &self.store
    }

    fn find(&self, doc: &DocId) -> (r: Option<usize>)
        ensures
            match r {
                Some(i) => i < self.docs.len() && self.docs[i as int].id@ == doc@,
                None => forall|j: int| 0 <= j < self.docs.len() ==> self.docs[j].id@ != doc@,
            },
            self.single_authority() ==> (r is Some <==> self.residents().contains_key(doc@)),
    {
        let mut i: usize = 0;
        while i < self.docs.len()
            invariant
                i <= self.docs.len(),
                forall|j: int| 0 <= j < i ==> self.docs[j].id@ != doc@,
            decreases self.docs.len() - i,
        {
            if self.docs[i].id.same(doc) {
                proof {
                    if distinct(self.docs@) {
                        lemma_docs_map(self.docs@);
                    }
                }
                return Some(i);
            }
            i = i + 1;
        }
        proof {
            if distinct(self.docs@) {
                lemma_docs_map(self.docs@);
            }
        }
        None
    }

    /// Whether `doc` is resident.
    pub fn is_resident(&self, doc: &DocId) -> (r: bool)
        requires
            self.wf(),
        ensures
            r == self.residents().contains_key(doc@),
    {
        self.find(doc).is_some()
    }

    /// The number of resident documents.
    pub fn resident_count(&self) -> (n: usize)
        ensures
            self.wf() ==> n == self.residents().dom().len() && self.residents().dom().finite(),
    {
        proof {
            if distinct(self.docs@) {
                lemma_docs_count(self.docs@);
            }
        }
        self.docs.len()
    }

    /// A reference to `doc`, if it is resident. Taking one attaches no
    /// session.
    pub fn handle_of(&self, doc: &DocId) -> (r: Option<Handle>)
        requires
            self.wf(),
        ensures
            r is Some <==> self.residents().contains_key(doc@),
            r matches Some(handle) ==> handle.doc() == doc@,
    {
        match self.find(doc) {
            Some(_) => Some(Handle { doc: doc.duplicate() }),
            None => None,
        }
    }

    /// The names of the resident documents.
    pub fn resident_ids(&self) -> (ids: Vec<DocId>)
        requires
            self.wf(),
        ensures
            forall|i: int| 0 <= i < ids.len() ==> self.residents().contains_key(#[trigger] ids[i]@),
            forall|doc: Seq<u8>| #[trigger]
                self.residents().contains_key(doc) ==> exists|i: int|
                    0 <= i < ids.len() && ids[i]@ == doc,
            forall|i: int, j: int| 0 <= i < j < ids.len() ==> ids[i]@ != ids[j]@,
    {
        proof {
            lemma_docs_map(self.docs@);
        }
        let mut ids: Vec<DocId> = Vec::new();
        let mut i: usize = 0;
        while i < self.docs.len()
            invariant
                i <= self.docs.len(),
                ids.len() == i,
                forall|j: int| 0 <= j < i ==> #[trigger] ids[j]@ == self.docs[j].id@,
            decreases self.docs.len() - i,
        {
            ids.push(self.docs[i].id.duplicate());
            i = i + 1;
        }
        proof {
            assert forall|doc: Seq<u8>| #[trigger]
                self.residents().contains_key(doc) implies exists|i: int|
                0 <= i < ids.len() && ids[i]@ == doc by {
                let p = slot(self.docs@, doc);
                assert(ids[p]@ == doc);
            }
            assert forall|i: int| 0 <= i < ids.len() implies self.residents().contains_key(
                #[trigger] ids[i]@,
            ) by {
                assert(ids[i]@ == self.docs[i].id@);
            }
            assert forall|i: int, j: int| 0 <= i < j < ids.len() implies ids[i]@ != ids[j]@ by {
                assert(ids[i]@ == self.docs[i].id@);
                assert(ids[j]@ == self.docs[j].id@);
            }
        }
        ids
    }

    /// A copy of the state of a resident document.
    pub fn state(&self, handle: &Handle) -> (r: Option<Vec<u8>>)
        requires
            self.wf(),
        ensures
            match r {
                Some(state) => self.residents().contains_key(handle.doc())
                    && self.residents()[handle.doc()].state == state@,
                None => !self.residents().contains_key(handle.doc()),
            },
    {
        proof {
            lemma_docs_map(self.docs@);
        }
        match self.find(&handle.doc) {
            Some(i) => Some(copy_bytes(&self.docs[i].state)),
            None => None,
        }
    }

    /// The sequence number of the last update that a resident document has
    /// accepted.
    pub fn last_seq(&self, handle: &Handle) -> (r: Option<u64>)
        requires
            self.wf(),
        ensures
            match r {
                Some(seq) => self.residents().contains_key(handle.doc())
                    && self.residents()[handle.doc()].last_seq() == seq,
                None => !self.residents().contains_key(handle.doc()),
            },
    {
        proof {
            lemma_docs_map(self.docs@);
        }
        match self.find(&handle.doc) {
            Some(i) => {
                proof {
                    assert(self.residents().contains_key(handle.doc()));
                    lemma_durable_bounded(
                        self.contents(),
                        handle.doc(),
                        self.residents()[handle.doc()].image(),
                    );
                }
                Some(self.docs[i].merged_seq + self.docs[i].pending.len() as u64)
            },
            None => None,
        }
    }

    /// The sequence number of the last update merged into the state of a
    /// resident document.
    pub fn merged_seq(&self, handle: &Handle) -> (r: Option<u64>)
        requires
            self.wf(),
        ensures
            match r {
                Some(seq) => self.residents().contains_key(handle.doc())
                    && self.residents()[handle.doc()].merged_seq == seq,
                None => !self.residents().contains_key(handle.doc()),
            },
    {
        proof {
            lemma_docs_map(self.docs@);
        }
        match self.find(&handle.doc) {
            Some(i) => Some(self.docs[i].merged_seq),
            None => None,
        }
    }

    /// A copy of the oldest update that a resident document has yet to
    /// merge, if it has one. Its merge into the state goes to `absorb`.
    pub fn next_pending(&self, handle: &Handle) -> (r: Option<Vec<u8>>)
        requires
            self.wf(),
        ensures
            match r {
                Some(update) => self.residents().contains_key(handle.doc())
                    && self.residents()[handle.doc()].pending.len() > 0
                    && self.residents()[handle.doc()].pending[0] == update@,
                None => self.residents().contains_key(handle.doc())
                    ==> self.residents()[handle.doc()].pending.len() == 0,
            },
    {
        proof {
            lemma_docs_map(self.docs@);
        }
        match self.find(&handle.doc) {
            Some(i) => {
                if self.docs[i].pending.len() > 0 {
                    Some(copy_bytes(&self.docs[i].pending[0]))
                } else {
                    None
                }
            },
            None => None,
        }
    }

    /// Whether a resident document has updates that no checkpoint covers.
    pub fn is_dirty(&self, handle: &Handle) -> (r: Option<bool>)
        requires
            self.wf(),
        ensures
            match r {
                Some(dirty) => self.residents().contains_key(handle.doc())
                    && self.residents()[handle.doc()].dirty == dirty,
                None => !self.residents().contains_key(handle.doc()),
            },
    {
        proof {
            lemma_docs_map(self.docs@);
        }
        match self.find(&handle.doc) {
            Some(i) => Some(self.docs[i].dirty),
            None => None,
        }
    }

    /// The number of sessions attached to a resident document.
    pub fn session_count(&self, handle: &Handle) -> (r: Option<usize>)
        requires
            self.wf(),
        ensures
            match r {
                Some(n) => self.residents().contains_key(handle.doc())
                    && self.residents()[handle.doc()].sessions == n,
                None => !self.residents().contains_key(handle.doc()),
            },
    {
        proof {
            lemma_docs_map(self.docs@);
        }
        match self.find(&handle.doc) {
            Some(i) => Some(self.docs[i].sessions),
            None => None,
        }
    }

    /// Reads the snapshot of `doc`, or the empty base where there is none.
    fn read_base(&self, doc: &DocId) -> (r: Result<(u64, Vec<u8>), EngineError>)
        ensures
            match r {
                Ok((baseline, base)) => base_of(self.contents(), doc@) == Some(
                    (baseline as nat, base@),
                ),
                Err(EngineError::DocLoad) => base_of(self.contents(), doc@) is None,
                Err(EngineError::Store(_)) => !self.reliable(),
                Err(_) => false,
            },
    {
        let key = snapshot_key_of(doc);
        match self.store.get(&key) {
            Err(e) => Err(EngineError::Store(e)),
            Ok(None) => {
                let base: Vec<u8> = Vec::new();
                assert(base@ =~= Seq::<u8>::empty());
                Ok((0, base))
            },
            Ok(Some(record)) => match decode_snapshot(&record) {
                None => Err(EngineError::DocLoad),
                Some((baseline, base)) => Ok((baseline, base)),
            },
        }
    }

    /// Finds the highest sequence number in the log of `doc`.
    fn log_top(&self, doc: &DocId, baseline: u64) -> (r: Result<u64, EngineError>)
        ensures
            match r {
                Ok(top) => is_top(self.contents(), doc@, baseline as nat, top as nat),
                Err(EngineError::Store(_)) => !self.reliable(),
                Err(_) => false,
            },
    {
        let prefix = update_prefix_of(doc);
        let keys = match self.store.list(&prefix) {
            Err(e) => {
                return Err(EngineError::Store(e));
            },
            Ok(keys) => keys,
        };
        let ghost contents = self.contents();
        let mut top: u64 = baseline;
        let mut i: usize = 0;
        while i < keys.len()
            invariant
                i <= keys.len(),
                prefix@ == update_prefix(doc@),
                is_listing(contents, prefix@, views_of(keys@)),
                baseline <= top,
                top > baseline ==> has_update(contents, doc@, top as nat),
                forall|j: int|
                    0 <= j < i ==> (key_seq(prefix@, #[trigger] keys[j]@) matches Some(s) ==> s
                        <= top),
            decreases keys.len() - i,
        {
            match seq_of_key(&prefix, &keys[i]) {
                Some(seq) => {
                    if seq > top {
                        top = seq;
                        proof {
                            lemma_key_seq(doc@, keys[i as int]@, seq as nat);
                            assert(views_of(keys@)[i as int] == keys[i as int]@);
                        }
                    }
                },
                None => {},
            }
            i = i + 1;
        }
        proof {
            let views = views_of(keys@);
            assert forall|s: nat| s > top implies !#[trigger] has_update(contents, doc@, s) by {
                if has_update(contents, doc@, s) {
                    let k = update_key(doc@, s);
                    lemma_key_seq(doc@, k, s);
                    let j = choose|j: int| 0 <= j < views.len() && views[j] == k;
                    assert(keys[j]@ == k);
                }
            }
        }
        Ok(top)
    }

    /// Reads the logged updates of `doc` numbered above `baseline` up to
    /// `top`, in order.
    fn read_tail(&self, doc: &DocId, baseline: u64, top: u64) -> (r: Result<
        Vec<Vec<u8>>,
        EngineError,
    >)
        requires
            baseline <= top,
        ensures
            match r {
                Ok(updates) => logged(self.contents(), doc@, baseline as nat, top as nat)
                    && views_of(updates@) == tail(
                    self.contents(),
                    doc@,
                    baseline as nat,
                    top as nat,
                ),
                Err(EngineError::DocLoad) => !logged(
                    self.contents(),
                    doc@,
                    baseline as nat,
                    top as nat,
                ),
                Err(EngineError::Store(_)) => !self.reliable(),
                Err(_) => false,
            },
    {
        let mut updates: Vec<Vec<u8>> = Vec::new();
        let mut cur: u64 = baseline;
        proof {
            assert(views_of(updates@) =~= tail(self.contents(), doc@, baseline as nat, cur as nat));
        }
        while cur < top
            invariant
                baseline <= cur <= top,
                logged(self.contents(), doc@, baseline as nat, cur as nat),
                views_of(updates@) == tail(self.contents(), doc@, baseline as nat, cur as nat),
            decreases top - cur,
        {
            let seq: u64 = cur + 1;
            let key = update_key_of(doc, seq);
            let found = match self.store.get(&key) {
                Err(e) => {
                    return Err(EngineError::Store(e));
                },
                Ok(found) => found,
            };
            match found {
                None => {
                    assert(!has_update(self.contents(), doc@, seq as nat));
                    return Err(EngineError::DocLoad);
                },
                Some(update) => {
                    let ghost before = views_of(updates@);
                    updates.push(update);
                    proof {
                        assert(views_of(updates@) =~= before.push(update@));
                        assert(before.push(update@) =~= tail(
                            self.contents(),
                            doc@,
                            baseline as nat,
                            seq as nat,
                        ));
                        assert forall|s: nat| baseline < s <= seq implies #[trigger] has_update(
                            self.contents(),
                            doc@,
                            s,
                        ) by {
                            if s != seq {
                                assert(has_update(self.contents(), doc@, s));
                            }
                        }
                    }
                },
            }
            cur = seq;
        }
        Ok(updates)
    }

    /// Reads `doc` from the store, without making it resident: the state and
    /// the baseline of the snapshot, and the logged updates above it.
    fn cold_load(&self, doc: &DocId) -> (r: Result<(Vec<u8>, u64, Vec<Vec<u8>>), EngineError>)
        ensures
            match r {
                Ok((state, baseline, pending)) => cold(
                    self.contents(),
                    doc@,
                    Image {
                        state: state@,
                        merged_seq: baseline as nat,
                        pending: views_of(pending@),
                    },
                ),
                Err(EngineError::DocLoad) => !loadable(self.contents(), doc@),
                Err(EngineError::Store(_)) => !self.reliable(),
                Err(_) => false,
            },
    {
        let (baseline, base) = match self.read_base(doc) {
            Err(e) => {
                return Err(e);
            },
            Ok(found) => found,
        };
        let top = match self.log_top(doc, baseline) {
            Err(e) => {
                return Err(e);
            },
            Ok(top) => top,
        };
        match self.read_tail(doc, baseline, top) {
            Err(e) => {
                proof {
                    if e == EngineError::DocLoad && loadable(self.contents(), doc@) {
                        let image = choose|image: Image| cold(self.contents(), doc@, image);
                        lemma_top_unique(
                            self.contents(),
                            doc@,
                            baseline as nat,
                            image.last_seq(),
                            top as nat,
                        );
                    }
                }
                Err(e)
            },
            Ok(pending) => Ok((base, baseline, pending)),
        }
    }

    /// Attaches a session to `doc`, loading the document from the store if
    /// it is not resident.
    ///
    /// A resident document gains a session. Otherwise the document becomes
    /// resident with the state of its snapshot, with the logged updates
    /// above the snapshot's baseline pending, in order, with one session
    /// and clean. The load fails as a whole where the snapshot is malformed
    /// or the log has a gap.
    pub fn load(&mut self, doc: &DocId, now: u64) -> (r: Result<Handle, EngineError>)
        requires
            old(self).wf(),
        ensures
            final(self).wf(),
            final(self).contents() == old(self).contents(),
            final(self).reliable() == old(self).reliable(),
            final(self).idle_threshold() == old(self).idle_threshold(),
            r matches Ok(handle) ==> handle.doc() == doc@,
            r is Err ==> final(self).residents() == old(self).residents(),
            old(self).residents().contains_key(doc@) ==> {
                let was = old(self).residents()[doc@];
                &&& r is Ok <==> was.sessions < usize::MAX
                &&& r is Err ==> r == Err::<Handle, EngineError>(EngineError::TooManySessions)
                &&& r is Ok ==> final(self).residents() == old(self).residents().insert(
                    doc@,
                    DocView { sessions: was.sessions + 1, last_activity: now as nat, ..was },
                )
            },
            !old(self).residents().contains_key(doc@) ==> {
                &&& r is Ok ==> final(self).residents().contains_key(doc@) && {
                    let now_is = final(self).residents()[doc@];
                    &&& final(self).residents() == old(self).residents().insert(doc@, now_is)
                    &&& !now_is.dirty
                    &&& now_is.sessions == 1
                    &&& now_is.last_activity == now
                    &&& cold(old(self).contents(), doc@, now_is.image())
                }
                &&& r matches Err(e) ==> e == EngineError::DocLoad || e is Store
                &&& r == Err::<Handle, EngineError>(EngineError::DocLoad) ==> !loadable(
                    old(self).contents(),
                    doc@,
                )
                &&& r matches Err(EngineError::Store(_)) ==> !old(self).reliable()
            },
    {
        proof {
            lemma_docs_map(self.docs@);
        }
        match self.find(doc) {
            Some(i) => {
                if self.docs[i].sessions == usize::MAX {
                    return Err(EngineError::TooManySessions);
                }
                let mut d = self.docs.remove(i);
                d.sessions = d.sessions + 1;
                d.last_activity = now;
                self.docs.insert(i, d);
                proof {
                    lemma_docs_replaced(old(self).docs@, self.docs@, i as int);
                    assert(self.residents() =~= old(self).residents().insert(
                        doc@,
                        DocView {
                            sessions: old(self).residents()[doc@].sessions + 1,
                            last_activity: now as nat,
                            ..old(self).residents()[doc@]
                        },
                    ));
                    assert(self.residents()[doc@].image() == old(self).residents()[doc@].image());
                }
                Ok(Handle { doc: doc.duplicate() })
            },
            None => {
                let (state, baseline, pending) = match self.cold_load(doc) {
                    Err(e) => {
                        return Err(e);
                    },
                    Ok(found) => found,
                };
                let resident = ResidentDocument {
                    id: doc.duplicate(),
                    state,
                    merged_seq: baseline,
                    pending,
                    dirty: false,
                    sessions: 1,
                    last_activity: now,
                };
                proof {
                    lemma_docs_pushed(self.docs@, resident);
                }
                self.docs.push(resident);
                Ok(Handle { doc: doc.duplicate() })
            },
        }
    }
}

impl<S: Store> Engine<S> {
    /// Accepts `update` for a resident document: logs it under the next
    /// sequence number, which is returned, and takes `merged` as the state
    /// of the document. `merged` is what the document library makes of the
    /// current state and the update.
    ///
    /// The update is written to the store before the state in memory
    /// changes, so an update is never in memory without being in the log.
    /// A document with pending updates takes none. On any error nothing has
    /// changed.
    pub fn apply_update(
        &mut self,
        handle: &Handle,
        update: &Vec<u8>,
        merged: Vec<u8>,
        now: u64,
    ) -> (r: Result<u64, EngineError>)
        requires
            old(self).wf(),
        ensures
            final(self).wf(),
            final(self).reliable() == old(self).reliable(),
            final(self).idle_threshold() == old(self).idle_threshold(),
            match r {
                Ok(seq) => {
                    let was = old(self).residents()[handle.doc()];
                    &&& old(self).residents().contains_key(handle.doc())
                    &&& was.pending.len() == 0
                    &&& seq == was.merged_seq + 1
                    &&& final(self).contents() == old(self).contents().insert(
                        update_key(handle.doc(), seq as nat),
                        update@,
                    )
                    &&& final(self).residents() == old(self).residents().insert(
                        handle.doc(),
                        DocView {
                            state: merged@,
                            merged_seq: seq as nat,
                            dirty: true,
                            last_activity: now as nat,
                            ..was
                        },
                    )
                },
                Err(e) => {
                    let was = old(self).residents()[handle.doc()];
                    &&& final(self).contents() == old(self).contents()
                    &&& final(self).residents() == old(self).residents()
                    &&& e == EngineError::NotResident <==> !old(self).residents().contains_key(
                        handle.doc(),
                    )
                    &&& e == EngineError::Lagging <==> old(self).residents().contains_key(
                        handle.doc(),
                    ) && was.pending.len() > 0
                    &&& e == EngineError::SequenceExhausted <==> old(self).residents().contains_key(handle.doc()) && was.pending.len() == 0
                        && was.merged_seq == u64::MAX
                    &&& e is Store ==> !old(self).reliable()
                    &&& e == EngineError::NotResident || e == EngineError::Lagging || e
                        == EngineError::SequenceExhausted || e is Store
                },
            },
    {
        proof {
            lemma_docs_map(self.docs@);
        }
        let i = match self.find(&handle.doc) {
            None => {
                return Err(EngineError::NotResident);
            },
            Some(i) => i,
        };
        if self.docs[i].pending.len() > 0 {
            return Err(EngineError::Lagging);
        }
        if self.docs[i].merged_seq == u64::MAX {
            return Err(EngineError::SequenceExhausted);
        }
        let seq: u64 = self.docs[i].merged_seq + 1;
        let key = update_key_of(&handle.doc, seq);
        let ghost doc = handle.doc();
        let ghost was = old(self).residents()[doc];
        let ghost before = self.contents();
        match self.store.put(&key, update) {
            Err(e) => {
                return Err(EngineError::Store(e));
            },
            Ok(()) => {},
        }
        let mut d = self.docs.remove(i);
        d.state = merged;
        d.merged_seq = seq;
        d.dirty = true;
        d.last_activity = now;
        self.docs.insert(i, d);
        proof {
            lemma_docs_replaced(old(self).docs@, self.docs@, i as int);
            assert(was.pending =~= Seq::<Seq<u8>>::empty());
            lemma_append(before, doc, was.image(), update@, merged@);
            lemma_frame(before, self.contents(), doc, old(self).residents());
            assert(self.residents()[doc].image() == (Image {
                state: merged@,
                merged_seq: was.merged_seq + 1,
                pending: Seq::empty(),
            }));
        }
        Ok(seq)
    }

    /// Takes `merged` as the state of a resident document that has pending
    /// updates: `merged` is what the document library makes of the current
    /// state and the oldest pending update, which is pending no longer.
    /// Returns the sequence number of that update. The store is not
    /// touched.
    pub fn absorb(&mut self, handle: &Handle, merged: Vec<u8>) -> (r: Result<u64, EngineError>)
        requires
            old(self).wf(),
        ensures
            final(self).wf(),
            final(self).contents() == old(self).contents(),
            final(self).reliable() == old(self).reliable(),
            final(self).idle_threshold() == old(self).idle_threshold(),
            match r {
                Ok(seq) => {
                    let was = old(self).residents()[handle.doc()];
                    &&& old(self).residents().contains_key(handle.doc())
                    &&& was.pending.len() > 0
                    &&& seq == was.merged_seq + 1
                    &&& final(self).residents() == old(self).residents().insert(
                        handle.doc(),
                        DocView {
                            state: merged@,
                            merged_seq: seq as nat,
                            pending: was.pending.drop_first(),
                            dirty: true,
                            ..was
                        },
                    )
                },
                Err(e) => {
                    &&& final(self).residents() == old(self).residents()
                    &&& e == EngineError::NotResident <==> !old(self).residents().contains_key(
                        handle.doc(),
                    )
                    &&& e == EngineError::NothingPending <==> old(self).residents().contains_key(
                        handle.doc(),
                    ) && old(self).residents()[handle.doc()].pending.len() == 0
                    &&& e == EngineError::NotResident || e == EngineError::NothingPending
                },
            },
    {
        proof {
            lemma_docs_map(self.docs@);
        }
        let i = match self.find(&handle.doc) {
            None => {
                return Err(EngineError::NotResident);
            },
            Some(i) => i,
        };
        if self.docs[i].pending.len() == 0 {
            return Err(EngineError::NothingPending);
        }
        let ghost doc = handle.doc();
        let ghost was = old(self).residents()[doc];
        proof {
            lemma_durable_bounded(self.contents(), doc, was.image());
        }
        let mut d = self.docs.remove(i);
        let ghost waiting = views_of(d.pending@);
        let _ = d.pending.remove(0);
        proof {
            assert(views_of(d.pending@) =~= waiting.drop_first());
        }
        d.state = merged;
        d.merged_seq = d.merged_seq + 1;
        d.dirty = true;
        let seq: u64 = d.merged_seq;
        self.docs.insert(i, d);
        proof {
            lemma_docs_replaced(old(self).docs@, self.docs@, i as int);
            lemma_absorb(self.contents(), doc, was.image(), merged@);
            lemma_same_self(self.contents(), doc);
            lemma_frame(self.contents(), self.contents(), doc, old(self).residents());
            assert(self.residents()[doc].image() == (Image {
                state: merged@,
                merged_seq: was.merged_seq + 1,
                pending: was.pending.drop_first(),
            }));
        }
        Ok(seq)
    }

    /// Removes the logged updates of `doc` that its snapshot supersedes.
    fn prune_log(&mut self, doc: &DocId, baseline: u64) -> (r: Result<(), EngineError>)
        requires
            old(self).wf(),
            old(self).residents().contains_key(doc@),
            old(self).residents()[doc@].merged_seq == baseline,
            cold(old(self).contents(), doc@, old(self).residents()[doc@].image()),
        ensures
            final(self).wf(),
            final(self).docs@ == old(self).docs@,
            final(self).reliable() == old(self).reliable(),
            final(self).idle_threshold() == old(self).idle_threshold(),
            base_of(final(self).contents(), doc@) == base_of(old(self).contents(), doc@),
            cold(final(self).contents(), doc@, old(self).residents()[doc@].image()),
            differ_within(old(self).contents(), final(self).contents(), doc@),
            match r {
                Ok(()) => forall|s: nat|
                    s <= baseline ==> !#[trigger] has_update(final(self).contents(), doc@, s),
                Err(e) => e is Store && !old(self).reliable(),
            },
    {
        let prefix = update_prefix_of(doc);
        proof {
            lemma_same_self(self.contents(), doc@);
        }
        let keys = match self.store.list(&prefix) {
            Err(e) => {
                return Err(EngineError::Store(e));
            },
            Ok(keys) => keys,
        };
        let ghost listed = self.contents();
        let ghost image = self.residents()[doc@].image();
        let mut i: usize = 0;
        while i < keys.len()
            invariant
                i <= keys.len(),
                prefix@ == update_prefix(doc@),
                is_listing(listed, prefix@, views_of(keys@)),
                self.wf(),
                self.docs@ == old(self).docs@,
                self.reliable() == old(self).reliable(),
                self.idle_threshold() == old(self).idle_threshold(),
                self.residents().contains_key(doc@),
                self.residents()[doc@].image() == image,
                image.merged_seq == baseline,
                cold(self.contents(), doc@, image),
                base_of(self.contents(), doc@) == base_of(old(self).contents(), doc@),
                differ_within(old(self).contents(), self.contents(), doc@),
                forall|k: Seq<u8>| self.contents().contains_key(k) ==> listed.contains_key(k),
                forall|j: int|
                    0 <= j < i && (key_seq(prefix@, #[trigger] keys[j]@) matches Some(s) && s
                        <= baseline) ==> !self.contents().contains_key(keys[j]@),
            decreases keys.len() - i,
        {
            match seq_of_key(&prefix, &keys[i]) {
                Some(seq) => {
                    let ghost prev = self.contents();
                    let ghost residents = self.residents();
                    proof {
                        lemma_key_seq(doc@, keys[i as int]@, seq as nat);
                    }
                    if seq <= baseline {
                        match self.store.delete(&keys[i]) {
                            Err(e) => {
                                return Err(EngineError::Store(e));
                            },
                            Ok(()) => {},
                        }
                        proof {
                            lemma_prune(prev, doc@, image, seq as nat);
                            lemma_frame(prev, self.contents(), doc@, residents);
                            lemma_differ_chain(
                                old(self).contents(),
                                prev,
                                self.contents(),
                                doc@,
                            );
                            assert(self.residents()[doc@].kept_by(self.contents(), doc@));
                        }
                    }
                },
                None => {},
            }
            i = i + 1;
        }
        proof {
            let views = views_of(keys@);
            let contents = self.contents();
            assert forall|s: nat| s <= baseline implies !#[trigger] has_update(contents, doc@, s) by {
                if has_update(contents, doc@, s) {
                    let k = update_key(doc@, s);
                    lemma_key_seq(doc@, k, s);
                    assert(listed.contains_key(k));
                    let j = choose|j: int| 0 <= j < views.len() && views[j] == k;
                    assert(keys[j]@ == k);
                }
            }
        }
        Ok(())
    }

    /// Saves a resident document: writes its state as the new snapshot and
    /// then removes the logged updates that the snapshot supersedes.
    ///
    /// Returns whether anything was written; a clean document is left
    /// alone. The log is touched only once the snapshot is written, and
    /// what is pending stays logged. If a write fails the document stays
    /// dirty, to be saved at the next attempt, and the store still
    /// reconstructs it.
    pub fn checkpoint(&mut self, handle: &Handle) -> (r: Result<bool, EngineError>)
        requires
            old(self).wf(),
        ensures
            final(self).wf(),
            final(self).reliable() == old(self).reliable(),
            final(self).idle_threshold() == old(self).idle_threshold(),
            differ_within(old(self).contents(), final(self).contents(), handle.doc()),
            match r {
                Ok(wrote) => {
                    let was = old(self).residents()[handle.doc()];
                    &&& old(self).residents().contains_key(handle.doc())
                    &&& wrote == was.dirty
                    &&& !wrote ==> final(self).contents() == old(self).contents() && final(self).residents() == old(self).residents()
                    &&& wrote ==> final(self).residents() == old(self).residents().insert(
                        handle.doc(),
                        DocView { dirty: false, ..was },
                    ) && was.saved_in(final(self).contents(), handle.doc())
                },
                Err(e) => {
                    &&& final(self).residents() == old(self).residents()
                    &&& e == EngineError::NotResident <==> !old(self).residents().contains_key(
                        handle.doc(),
                    )
                    &&& e == EngineError::NotResident ==> final(self).contents() == old(self).contents()
                    &&& e is Store ==> {
                        let was = old(self).residents()[handle.doc()];
                        &&& !old(self).reliable()
                        &&& was.dirty
                        &&& final(self).contents() == old(self).contents() || base_of(
                            final(self).contents(),
                            handle.doc(),
                        ) == Some((was.merged_seq, was.state))
                    }
                    &&& e == EngineError::NotResident || e is Store
                },
            },
    {
        proof {
            lemma_docs_map(self.docs@);
            lemma_same_self(self.contents(), handle.doc());
        }
        let i = match self.find(&handle.doc) {
            None => {
                return Err(EngineError::NotResident);
            },
            Some(i) => i,
        };
        if !self.docs[i].dirty {
            return Ok(false);
        }
        let ghost doc = handle.doc();
        let ghost was = old(self).residents()[doc];
        let ghost before = self.contents();
        let baseline: u64 = self.docs[i].merged_seq;
        let key = snapshot_key_of(&handle.doc);
        let record = encode_snapshot(baseline, &self.docs[i].state);
        match self.store.put(&key, &record) {
            Err(e) => {
                return Err(EngineError::Store(e));
            },
            Ok(()) => {},
        }
        let ghost saved = self.contents();
        proof {
            lemma_snapshot(before, doc, was.image());
            lemma_frame(before, saved, doc, old(self).residents());
            assert(self.residents()[doc].kept_by(saved, doc));
        }
        match self.prune_log(&handle.doc, baseline) {
            Err(e) => {
                proof {
                    lemma_differ_chain(before, saved, self.contents(), doc);
                }
                return Err(e);
            },
            Ok(()) => {},
        }
        let ghost pruned = self.contents();
        let ghost held = self.residents();
        proof {
            lemma_differ_chain(before, saved, pruned, doc);
            assert(held == old(self).residents());
            assert(forall|d: Seq<u8>| #[trigger] held.contains_key(d) ==> held[d].kept_by(pruned, d));
        }
        let mut d = self.docs.remove(i);
        d.dirty = false;
        self.docs.insert(i, d);
        proof {
            lemma_docs_replaced(old(self).docs@, self.docs@, i as int);
            assert forall|d: Seq<u8>| #[trigger] self.residents().contains_key(d) implies self.residents()[d].kept_by(
                self.contents(),
                d,
            ) by {
                assert(held.contains_key(d));
                if d == doc {
                    assert(self.residents()[d].image() == held[d].image());
                } else {
                    assert(self.residents()[d] == held[d]);
                }
            }
        }
        Ok(true)
    }

    /// Detaches a session from a resident document and returns how many
    /// remain. The document stays resident.
    pub fn release(&mut self, handle: &Handle, now: u64) -> (r: Result<usize, EngineError>)
        requires
            old(self).wf(),
        ensures
            final(self).wf(),
            final(self).contents() == old(self).contents(),
            final(self).reliable() == old(self).reliable(),
            final(self).idle_threshold() == old(self).idle_threshold(),
            match r {
                Ok(left) => {
                    &&& old(self).residents().contains_key(handle.doc())
                    &&& left + 1 == old(self).residents()[handle.doc()].sessions
                    &&& final(self).residents() == old(self).residents().insert(
                        handle.doc(),
                        DocView {
                            sessions: left as nat,
                            last_activity: now as nat,
                            ..old(self).residents()[handle.doc()]
                        },
                    )
                },
                Err(e) => {
                    &&& final(self).residents() == old(self).residents()
                    &&& e == EngineError::NotResident <==> !old(self).residents().contains_key(
                        handle.doc(),
                    )
                    &&& e == EngineError::NoSessions <==> old(self).residents().contains_key(
                        handle.doc(),
                    ) && old(self).residents()[handle.doc()].sessions == 0
                    &&& e == EngineError::NotResident || e == EngineError::NoSessions
                },
            },
    {
        proof {
            lemma_docs_map(self.docs@);
        }
        let i = match self.find(&handle.doc) {
            None => {
                return Err(EngineError::NotResident);
            },
            Some(i) => i,
        };
        if self.docs[i].sessions == 0 {
            return Err(EngineError::NoSessions);
        }
        let mut d = self.docs.remove(i);
        d.sessions = d.sessions - 1;
        d.last_activity = now;
        let left: usize = d.sessions;
        self.docs.insert(i, d);
        proof {
            lemma_docs_replaced(old(self).docs@, self.docs@, i as int);
        }
        Ok(left)
    }

    /// Removes a document without sessions from memory as it is, without
    /// saving it and whether or not it is idle. This is for a document
    /// whose pending updates the document library cannot merge: its load
    /// has failed, and the store is left as it was found.
    pub fn discard(&mut self, handle: &Handle) -> (r: Result<(), EngineError>)
        requires
            old(self).wf(),
        ensures
            final(self).wf(),
            final(self).contents() == old(self).contents(),
            final(self).reliable() == old(self).reliable(),
            final(self).idle_threshold() == old(self).idle_threshold(),
            match r {
                Ok(()) => {
                    &&& old(self).residents().contains_key(handle.doc())
                    &&& old(self).residents()[handle.doc()].sessions == 0
                    &&& final(self).residents() == old(self).residents().remove(handle.doc())
                },
                Err(e) => {
                    &&& final(self).residents() == old(self).residents()
                    &&& e == EngineError::NotResident <==> !old(self).residents().contains_key(
                        handle.doc(),
                    )
                    &&& e == EngineError::Busy <==> old(self).residents().contains_key(
                        handle.doc(),
                    ) && old(self).residents()[handle.doc()].sessions > 0
                    &&& e == EngineError::NotResident || e == EngineError::Busy
                },
            },
    {
        proof {
            lemma_docs_map(self.docs@);
        }
        let i = match self.find(&handle.doc) {
            None => {
                return Err(EngineError::NotResident);
            },
            Some(i) => i,
        };
        if self.docs[i].sessions > 0 {
            return Err(EngineError::Busy);
        }
        proof {
            lemma_docs_removed(self.docs@, i as int);
        }
        let _ = self.docs.remove(i);
        Ok(())
    }

    /// Removes an idle document from memory, after saving it if it is
    /// dirty. A later load yields it from the store as it was.
    ///
    /// A document is idle when it has no session and has been inactive for
    /// the idle threshold. If the save fails the document stays resident.
    pub fn evict(&mut self, handle: &Handle, now: u64) -> (r: Result<(), EngineError>)
        requires
            old(self).wf(),
        ensures
            final(self).wf(),
            final(self).reliable() == old(self).reliable(),
            final(self).idle_threshold() == old(self).idle_threshold(),
            differ_within(old(self).contents(), final(self).contents(), handle.doc()),
            match r {
                Ok(()) => {
                    let was = old(self).residents()[handle.doc()];
                    &&& old(self).residents().contains_key(handle.doc())
                    &&& was.idle(now as nat, old(self).idle_threshold() as nat)
                    &&& final(self).residents() == old(self).residents().remove(handle.doc())
                    &&& cold(final(self).contents(), handle.doc(), was.image())
                    &&& was.dirty ==> was.saved_in(final(self).contents(), handle.doc())
                    &&& !was.dirty ==> final(self).contents() == old(self).contents()
                },
                Err(e) => {
                    let was = old(self).residents()[handle.doc()];
                    &&& final(self).residents() == old(self).residents()
                    &&& e == EngineError::NotResident <==> !old(self).residents().contains_key(
                        handle.doc(),
                    )
                    &&& e == EngineError::Busy <==> old(self).residents().contains_key(
                        handle.doc(),
                    ) && was.sessions > 0
                    &&& e == EngineError::NotIdle <==> old(self).residents().contains_key(
                        handle.doc(),
                    ) && was.sessions == 0 && !was.idle(
                        now as nat,
                        old(self).idle_threshold() as nat,
                    )
                    &&& e is Store ==> was.dirty && !old(self).reliable() && was.idle(
                        now as nat,
                        old(self).idle_threshold() as nat,
                    ) && (final(self).contents() == old(self).contents() || base_of(
                        final(self).contents(),
                        handle.doc(),
                    ) == Some((was.merged_seq, was.state)))
                    &&& !(e is Store) ==> final(self).contents() == old(self).contents()
                    &&& e == EngineError::NotResident || e == EngineError::Busy || e
                        == EngineError::NotIdle || e is Store
                },
            },
    {
        proof {
            lemma_docs_map(self.docs@);
            lemma_same_self(self.contents(), handle.doc());
        }
        let i = match self.find(&handle.doc) {
            None => {
                return Err(EngineError::NotResident);
            },
            Some(i) => i,
        };
        if self.docs[i].sessions > 0 {
            return Err(EngineError::Busy);
        }
        let last: u64 = self.docs[i].last_activity;
        if now < last || now - last < self.idle_threshold {
            return Err(EngineError::NotIdle);
        }
        match self.checkpoint(handle) {
            Err(e) => {
                return Err(e);
            },
            Ok(_) => {},
        }
        proof {
            lemma_docs_map(self.docs@);
            assert(self.residents().contains_key(handle.doc()));
            assert(self.residents()[handle.doc()].kept_by(self.contents(), handle.doc()));
        }
        match self.find(&handle.doc) {
            Some(j) => {
                proof {
                    lemma_docs_removed(self.docs@, j as int);
                }
                let _ = self.docs.remove(j);
                assert(self.residents() =~= old(self).residents().remove(handle.doc()));
            },
            None => {},
        }
        Ok(())
    }
}

/// No resident document owns `key`.
pub open spec fn unowned(residents: Map<Seq<u8>, DocView>, key: Seq<u8>) -> bool {
    forall|d: Seq<u8>| #[trigger] residents.contains_key(d) ==> !owned_by(d, key)
}

impl<S: Store> Engine<S> {
    /// Saves one resident document, and says whether it is clean now.
    fn checkpoint_one(&mut self, doc: &DocId) -> (saved: bool)
        requires
            old(self).wf(),
            old(self).residents().contains_key(doc@),
        ensures
            final(self).wf(),
            final(self).reliable() == old(self).reliable(),
            final(self).idle_threshold() == old(self).idle_threshold(),
            differ_within(old(self).contents(), final(self).contents(), doc@),
            final(self).residents() == old(self).residents().insert(
                doc@,
                DocView { dirty: !saved, ..old(self).residents()[doc@] },
            ),
            !saved ==> old(self).residents()[doc@].dirty && !old(self).reliable(),
            forall|before: Map<Seq<u8>, Seq<u8>>| #[trigger]
                same_for(before, old(self).contents(), doc@) ==> old(self).residents()[doc@].checkpointed(!saved, before, final(self).contents(), doc@),
    {
        let ghost was = self.residents()[doc@];
        let ghost prev = self.contents();
        let saved = match self.handle_of(doc) {
            Some(handle) => self.checkpoint(&handle).is_ok(),
            None => true,
        };
        proof {
            assert(self.residents() =~= old(self).residents().insert(
                doc@,
                DocView { dirty: !saved, ..was },
            ));
            assert forall|before: Map<Seq<u8>, Seq<u8>>| #[trigger]
                same_for(before, prev, doc@) implies was.checkpointed(
                !saved,
                before,
                self.contents(),
                doc@,
            ) by {
                if self.contents() == prev {
                    assert(same_for(before, self.contents(), doc@));
                }
            }
        }
        saved
    }

    /// Saves every resident document that is dirty, and returns the names
    /// of those that could not be saved. This is the periodic checkpoint,
    /// and the last thing done before the server stops.
    ///
    /// A document that could not be saved stays dirty and is saved at the
    /// next attempt; the failure does not keep the others from being saved.
    #[verifier::rlimit(60)]
    pub fn checkpoint_all(&mut self) -> (failed: Vec<DocId>)
        requires
            old(self).wf(),
        ensures
            final(self).wf(),
            final(self).reliable() == old(self).reliable(),
            final(self).idle_threshold() == old(self).idle_threshold(),
            forall|d: Seq<u8>| #[trigger]
                final(self).residents().contains_key(d) == old(self).residents().contains_key(d),
            forall|d: Seq<u8>|
                #![trigger old(self).residents().contains_key(d)]
                #![trigger final(self).residents()[d]]
                old(self).residents().contains_key(d) ==> final(self).residents()[d] == (DocView {
                    dirty: final(self).residents()[d].dirty,
                    ..old(self).residents()[d]
                }) && old(self).residents()[d].checkpointed(
                    final(self).residents()[d].dirty,
                    old(self).contents(),
                    final(self).contents(),
                    d,
                ),
            forall|k: int|
                0 <= k < failed.len() ==> final(self).residents().contains_key(
                    #[trigger] failed[k]@,
                ) && final(self).residents()[failed[k]@].dirty,
            forall|d: Seq<u8>|
                #![trigger final(self).residents().contains_key(d)]
                #![trigger final(self).residents()[d]]
                final(self).residents().contains_key(d) && final(self).residents()[d].dirty
                    ==> exists|k: int| 0 <= k < failed.len() && failed[k]@ == d,
            forall|a: int, b: int| 0 <= a < b < failed.len() ==> failed[a]@ != failed[b]@,
            old(self).reliable() ==> failed.len() == 0,
            forall|k: Seq<u8>|
                unowned(old(self).residents(), k) ==> #[trigger] agree_at(
                    old(self).contents(),
                    final(self).contents(),
                    k,
                ),
    {
        let ids = self.resident_ids();
        let mut failed: Vec<DocId> = Vec::new();
        let ghost mut origin: Seq<int> = Seq::empty();
        let mut i: usize = 0;
        proof {
            assert forall|j: int| 0 <= j < ids.len() implies same_for(
                self.contents(),
                self.contents(),
                #[trigger] ids[j]@,
            ) by {
                lemma_same_self(self.contents(), ids[j]@);
            }
        }
        while i < ids.len()
            invariant
                i <= ids.len(),
                self.wf(),
                self.reliable() == old(self).reliable(),
                self.idle_threshold() == old(self).idle_threshold(),
                forall|j: int|
                    0 <= j < ids.len() ==> old(self).residents().contains_key(#[trigger] ids[j]@),
                forall|a: int, b: int| 0 <= a < b < ids.len() ==> ids[a]@ != ids[b]@,
                forall|d: Seq<u8>| #[trigger]
                    self.residents().contains_key(d) == old(self).residents().contains_key(d),
                forall|d: Seq<u8>| #[trigger]
                    old(self).residents().contains_key(d) ==> self.residents()[d] == (DocView {
                        dirty: self.residents()[d].dirty,
                        ..old(self).residents()[d]
                    }),
                forall|j: int|
                    0 <= j < i ==> old(self).residents()[#[trigger] ids[j]@].checkpointed(
                        self.residents()[ids[j]@].dirty,
                        old(self).contents(),
                        self.contents(),
                        ids[j]@,
                    ),
                forall|j: int|
                    i <= j < ids.len() ==> self.residents()[#[trigger] ids[j]@] == old(self).residents()[ids[j]@] && same_for(
                        old(self).contents(),
                        self.contents(),
                        ids[j]@,
                    ),
                origin.len() == failed.len(),
                forall|k: int|
                    0 <= k < failed.len() ==> 0 <= #[trigger] origin[k] < i && failed[k]@
                        == ids[origin[k]]@ && self.residents()[ids[origin[k]]@].dirty,
                forall|a: int, b: int| 0 <= a < b < failed.len() ==> origin[a] < origin[b],
                forall|j: int|
                    0 <= j < i && self.residents()[#[trigger] ids[j]@].dirty ==> exists|k: int|
                        0 <= k < failed.len() && origin[k] == j,
                old(self).reliable() ==> failed.len() == 0,
                forall|k: Seq<u8>|
                    unowned(old(self).residents(), k) ==> #[trigger] agree_at(
                        old(self).contents(),
                        self.contents(),
                        k,
                    ),
            decreases ids.len() - i,
        {
            let ghost prev = self.contents();
            let ghost held = self.residents();
            let ghost doc = ids[i as int]@;
            let ghost lost = failed@;
            let ghost old_origin = origin;
            proof {
                assert(old(self).residents().contains_key(ids[i as int]@));
                assert(held.contains_key(doc));
            }
            let saved = self.checkpoint_one(&ids[i]);
            proof {
                assert(held[doc] == old(self).residents()[doc]);
                assert forall|j: int| 0 <= j < ids.len() && j != i implies self.residents()[#[trigger] ids[j]@]
                    == held[ids[j]@] && same_for(prev, self.contents(), ids[j]@) by {
                    assert(ids[j]@ != doc);
                    lemma_differ_same(prev, self.contents(), doc, ids[j]@);
                }
                assert forall|j: int| 0 <= j < i implies old(self).residents()[#[trigger] ids[j]@].checkpointed(
                    self.residents()[ids[j]@].dirty,
                    old(self).contents(),
                    self.contents(),
                    ids[j]@,
                ) by {
                    assert(same_for(prev, self.contents(), ids[j]@));
                    lemma_checkpointed_same(
                        old(self).residents()[ids[j]@],
                        held[ids[j]@].dirty,
                        old(self).contents(),
                        prev,
                        self.contents(),
                        ids[j]@,
                    );
                }
                assert forall|j: int| i < j < ids.len() implies same_for(
                    old(self).contents(),
                    self.contents(),
                    #[trigger] ids[j]@,
                ) by {
                    assert(same_for(prev, self.contents(), ids[j]@));
                    lemma_same_chain(old(self).contents(), prev, self.contents(), ids[j]@);
                }
                assert(same_for(old(self).contents(), prev, ids[i as int]@));
                assert(old(self).residents()[doc].checkpointed(
                    !saved,
                    old(self).contents(),
                    self.contents(),
                    doc,
                ));
                assert forall|k: Seq<u8>| unowned(old(self).residents(), k) implies #[trigger] agree_at(
                    old(self).contents(),
                    self.contents(),
                    k,
                ) by {
                    assert(agree_at(old(self).contents(), prev, k));
                    assert(!owned_by(doc, k));
                    assert(agree_at(prev, self.contents(), k));
                }
                assert forall|k: int| 0 <= k < lost.len() implies self.residents()[ids[#[trigger] old_origin[k]]@].dirty by {
                    assert(old_origin[k] != i);
                    assert(self.residents()[ids[old_origin[k]]@] == held[ids[old_origin[k]]@]);
                }
                assert forall|j: int|
                    0 <= j < i && self.residents()[#[trigger] ids[j]@].dirty implies exists|k: int|
                    0 <= k < lost.len() && old_origin[k] == j by {
                    assert(self.residents()[ids[j]@] == held[ids[j]@]);
                }
            }
            if !saved {
                failed.push(ids[i].duplicate());
                proof {
                    origin = origin.push(i as int);
                    assert forall|j: int|
                        0 <= j < i + 1 && self.residents()[#[trigger] ids[j]@].dirty implies exists|
                        k: int,
                    | 0 <= k < failed.len() && origin[k] == j by {
                        if j < i {
                            let k = choose|k: int| 0 <= k < lost.len() && old_origin[k] == j;
                            assert(origin[k] == j);
                        } else {
                            assert(origin[lost.len() as int] == j);
                        }
                    }
                }
            }
            i = i + 1;
        }
        proof {
            assert forall|d: Seq<u8>| #[trigger]
                old(self).residents().contains_key(d) implies old(self).residents()[d].checkpointed(
                self.residents()[d].dirty,
                old(self).contents(),
                self.contents(),
                d,
            ) by {
                let j = choose|j: int| 0 <= j < ids.len() && ids[j]@ == d;
                assert(old(self).residents()[ids[j]@].checkpointed(
                    self.residents()[ids[j]@].dirty,
                    old(self).contents(),
                    self.contents(),
                    ids[j]@,
                ));
            }
            assert forall|k: int| 0 <= k < failed.len() implies self.residents().contains_key(
                #[trigger] failed[k]@,
            ) && self.residents()[failed[k]@].dirty by {
                assert(old(self).residents().contains_key(ids[origin[k]]@));
            }
            assert forall|d: Seq<u8>| #[trigger]
                self.residents().contains_key(d) && self.residents()[d].dirty implies exists|k: int|
                0 <= k < failed.len() && failed[k]@ == d by {
                let j = choose|j: int| 0 <= j < ids.len() && ids[j]@ == d;
                assert(self.residents()[ids[j]@].dirty);
                let k = choose|k: int| 0 <= k < failed.len() && origin[k] == j;
                assert(failed[k]@ == d);
            }
            assert forall|a: int, b: int| 0 <= a < b < failed.len() implies failed[a]@
                != failed[b]@ by {
                assert(origin[a] < origin[b]);
            }
        }
        failed
    }

    /// Evicts every idle document, and returns the names of those evicted.
    /// This is the periodic sweep.
    ///
    /// An idle document stays resident only if it is dirty and could not be
    /// saved.
    pub fn sweep_idle(&mut self, now: u64) -> (evicted: Vec<DocId>)
        requires
            old(self).wf(),
        ensures
            final(self).wf(),
            final(self).reliable() == old(self).reliable(),
            final(self).idle_threshold() == old(self).idle_threshold(),
            forall|d: Seq<u8>| #[trigger]
                final(self).residents().contains_key(d) ==> old(self).residents().contains_key(d)
                    && final(self).residents()[d] == old(self).residents()[d],
            forall|d: Seq<u8>| #[trigger]
                final(self).residents().contains_key(d) && old(self).residents()[d].idle(
                    now as nat,
                    old(self).idle_threshold() as nat,
                ) ==> old(self).residents()[d].dirty && !old(self).reliable(),
            forall|d: Seq<u8>|
                old(self).residents().contains_key(d) && !#[trigger] final(self).residents().contains_key(
                    d,
                ) ==> old(self).residents()[d].idle(
                    now as nat,
                    old(self).idle_threshold() as nat,
                ) && cold(final(self).contents(), d, old(self).residents()[d].image()) && (old(self).residents()[d].dirty ==> old(self).residents()[d].saved_in(
                    final(self).contents(),
                    d,
                )),
            forall|d: Seq<u8>|
                old(self).residents().contains_key(d) && !#[trigger] final(self).residents().contains_key(
                    d,
                ) ==> exists|k: int| 0 <= k < evicted.len() && evicted[k]@ == d,
            forall|k: int|
                0 <= k < evicted.len() ==> old(self).residents().contains_key(
                    #[trigger] evicted[k]@,
                ) && !final(self).residents().contains_key(evicted[k]@),
            forall|a: int, b: int| 0 <= a < b < evicted.len() ==> evicted[a]@ != evicted[b]@,
            forall|k: Seq<u8>|
                unowned(old(self).residents(), k) ==> #[trigger] agree_at(
                    old(self).contents(),
                    final(self).contents(),
                    k,
                ),
    {
        let ids = self.resident_ids();
        let mut evicted: Vec<DocId> = Vec::new();
        let mut i: usize = 0;
        while i < ids.len()
            invariant
                i <= ids.len(),
                self.wf(),
                self.reliable() == old(self).reliable(),
                self.idle_threshold() == old(self).idle_threshold(),
                forall|j: int|
                    0 <= j < ids.len() ==> old(self).residents().contains_key(#[trigger] ids[j]@),
                forall|d: Seq<u8>| #[trigger]
                    old(self).residents().contains_key(d) ==> exists|j: int|
                        0 <= j < ids.len() && ids[j]@ == d,
                forall|a: int, b: int| 0 <= a < b < ids.len() ==> ids[a]@ != ids[b]@,
                forall|d: Seq<u8>| #[trigger]
                    self.residents().contains_key(d) ==> old(self).residents().contains_key(d)
                        && self.residents()[d] == old(self).residents()[d],
                forall|j: int|
                    i <= j < ids.len() ==> self.residents().contains_key(#[trigger] ids[j]@),
                forall|d: Seq<u8>|
                    old(self).residents().contains_key(d) && !#[trigger] self.residents().contains_key(
                        d,
                    ) ==> old(self).residents()[d].idle(
                        now as nat,
                        old(self).idle_threshold() as nat,
                    ) && cold(self.contents(), d, old(self).residents()[d].image()) && (old(self).residents()[d].dirty ==> old(self).residents()[d].saved_in(
                        self.contents(),
                        d,
                    )),
                forall|d: Seq<u8>|
                    old(self).residents().contains_key(d) && !#[trigger] self.residents().contains_key(
                        d,
                    ) ==> exists|k: int| 0 <= k < evicted.len() && evicted[k]@ == d,
                forall|k: int|
                    0 <= k < evicted.len() ==> old(self).residents().contains_key(
                        #[trigger] evicted[k]@,
                    ) && !self.residents().contains_key(evicted[k]@),
                forall|a: int, b: int| 0 <= a < b < evicted.len() ==> evicted[a]@ != evicted[b]@,
                forall|j: int|
                    0 <= j < i && self.residents().contains_key(#[trigger] ids[j]@) && old(self).residents()[ids[j]@].idle(now as nat, old(self).idle_threshold() as nat)
                        ==> old(self).residents()[ids[j]@].dirty && !old(self).reliable(),
                forall|k: Seq<u8>|
                    unowned(old(self).residents(), k) ==> #[trigger] agree_at(
                        old(self).contents(),
                        self.contents(),
                        k,
                    ),
            decreases ids.len() - i,
        {
            let ghost prev = self.contents();
            let ghost held = self.residents();
            let ghost doc = ids[i as int]@;
            let ghost gone = evicted@;
            let done = match self.handle_of(&ids[i]) {
                Some(handle) => self.evict(&handle, now).is_ok(),
                None => false,
            };
            proof {
                assert(held.contains_key(doc));
                assert(old(self).residents().contains_key(doc));
                assert(held[doc] == old(self).residents()[doc]);
                assert forall|d: Seq<u8>|
                    old(self).residents().contains_key(d) && !held.contains_key(d) implies cold(
                    self.contents(),
                    d,
                    old(self).residents()[d].image(),
                ) && (old(self).residents()[d].dirty ==> old(self).residents()[d].saved_in(
                    self.contents(),
                    d,
                )) by {
                    lemma_differ_same(prev, self.contents(), doc, d);
                    lemma_durable_same(prev, self.contents(), d, old(self).residents()[d].image());
                    if old(self).residents()[d].dirty {
                        assert forall|s: nat| s <= old(self).residents()[d].merged_seq implies !#[trigger] has_update(
                            self.contents(),
                            d,
                            s,
                        ) by {
                            assert(!has_update(prev, d, s));
                        }
                    }
                }
                assert forall|j: int| i < j < ids.len() implies self.residents().contains_key(
                    #[trigger] ids[j]@,
                ) by {
                    assert(ids[j]@ != doc);
                    assert(held.contains_key(ids[j]@));
                }
                assert forall|k: Seq<u8>| unowned(old(self).residents(), k) implies #[trigger] agree_at(
                    old(self).contents(),
                    self.contents(),
                    k,
                ) by {
                    assert(agree_at(old(self).contents(), prev, k));
                    assert(!owned_by(doc, k));
                    assert(agree_at(prev, self.contents(), k));
                }
            }
            if done {
                evicted.push(ids[i].duplicate());
                proof {
                    assert(evicted[gone.len() as int]@ == doc);
                    assert forall|d: Seq<u8>|
                        old(self).residents().contains_key(d) && !#[trigger] self.residents().contains_key(
                            d,
                        ) implies exists|k: int| 0 <= k < evicted.len() && evicted[k]@ == d by {
                        if d == doc {
                            assert(evicted[gone.len() as int]@ == d);
                        } else {
                            assert(!held.contains_key(d));
                            let k = choose|k: int| 0 <= k < gone.len() && gone[k]@ == d;
                            assert(evicted[k]@ == d);
                        }
                    }
                    assert forall|k: int| 0 <= k < evicted.len() implies old(self).residents().contains_key(
                        #[trigger] evicted[k]@,
                    ) && !self.residents().contains_key(evicted[k]@) by {
                        if k < gone.len() {
                            assert(evicted[k] == gone[k]);
                            assert(!held.contains_key(gone[k]@));
                        }
                    }
                    assert forall|a: int, b: int| 0 <= a < b < evicted.len() implies evicted[a]@
                        != evicted[b]@ by {
                        assert(evicted[a] == gone[a]);
                        if b < gone.len() {
                            assert(evicted[b] == gone[b]);
                        } else {
                            assert(!held.contains_key(gone[a]@));
                        }
                    }
                }
            }
            i = i + 1;
        }
        proof {
            assert forall|d: Seq<u8>| #[trigger]
                self.residents().contains_key(d) && old(self).residents()[d].idle(
                    now as nat,
                    old(self).idle_threshold() as nat,
                ) implies old(self).residents()[d].dirty && !old(self).reliable() by {
                let j = choose|j: int| 0 <= j < ids.len() && ids[j]@ == d;
                assert(self.residents().contains_key(ids[j]@));
            }
        }
        evicted
    }
}

proof fn lemma_docs_count(docs: Seq<ResidentDocument>)
    requires
        distinct(docs),
    ensures
        docs_map(docs).dom().finite(),
        docs_map(docs).dom().len() == docs.len(),
    decreases docs.len(),
{
    if docs.len() == 0 {
        assert(docs_map(docs).dom() =~= Set::<Seq<u8>>::empty());
    } else {
        let front = docs.drop_last();
        assert forall|i: int, j: int| 0 <= i < j < front.len() implies front[i].id@
            != front[j].id@ by {
            assert(docs[i].id@ != docs[j].id@);
        }
        lemma_docs_count(front);
        assert(docs =~= front.push(docs.last()));
        assert forall|i: int| 0 <= i < front.len() implies front[i].id@ != docs.last().id@ by {
            assert(docs[i].id@ != docs[docs.len() - 1].id@);
        }
        lemma_docs_pushed(front, docs.last());
        assert(docs_map(docs).dom() =~= docs_map(front).dom().insert(docs.last().id@));
    }
}

} // verus!
