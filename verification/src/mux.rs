//! The connection multiplexer: the client sessions of each document.
//!
//! A session is one client's attachment to one document. It is admitted
//! only with a token that covers the document, it is attached to the
//! resident document through the engine, and from then on its updates are
//! logged by the engine and handed to every other session of the same
//! document, in the order in which they were accepted. What is to be
//! sent to a session waits in its outbox until the transport drains it.
//!
//! A session that submits an update after its authorization has expired is
//! closed and the update is refused.

use vstd::prelude::*;
use crate::auth::{expired, verdict, AuthError, Authenticator};
use crate::codec::copy_bytes;
use crate::engine::{DocView, Engine, EngineError, Handle};
use crate::durable::{agree_at, base_of, cold, differ_within, loadable};
use crate::engine::unowned;
use crate::keys::{update_key, DocId};
use crate::store::Store;

verus! {

/// Where a session is in its life.
#[derive(Clone, Copy, Debug, PartialEq, Eq, Structural)]
pub enum SessionState {
    /// Connected, not yet authorized; only a token is accepted.
    Connecting,
    /// Authorized, not yet attached to its document.
    Authorized,
    /// Attached; updates flow in both directions.
    Active,
    /// Gone. A closed session is forgotten.
    Closed,
}

/// Why a multiplexer operation did not take place.
#[derive(Clone, Copy, Debug, PartialEq, Eq, Structural)]
pub enum MuxError {
    /// The token was refused, or the authorization has expired.
    Unauthorized,
    /// There is no such session.
    UnknownSession,
    /// The session is not in the state that the operation needs.
    WrongState,
    /// The engine refused, or the document is unavailable.
    Engine(EngineError),
    /// No session number is left.
    TooManySessions,
}

/// What is sent to a session.
#[derive(Debug)]
pub enum Frame {
    /// An update that another session submitted.
    Update(Vec<u8>),
    /// The presence that the session with the given number published.
    Awareness(u64, Vec<u8>),
}

/// A frame, with its bytes as a sequence.
pub enum FrameView {
    Update(Seq<u8>),
    Awareness(u64, Seq<u8>),
}

impl View for Frame {
    type V = FrameView;

    open spec fn view(&self) -> FrameView {
        match self {
            Frame::Update(bytes) => FrameView::Update(bytes@),
            Frame::Awareness(from, bytes) => FrameView::Awareness(*from, bytes@),
        }
    }
}

impl Frame {
    /// A copy of this frame.
    pub fn duplicate(&self) -> (frame: Frame)
        ensures
            frame@ == self@,
    {
        match self {
            Frame::Update(bytes) => Frame::Update(copy_bytes(bytes)),
            Frame::Awareness(from, bytes) => Frame::Awareness(*from, copy_bytes(bytes)),
        }
    }
}

/// The views of a sequence of frames.
pub open spec fn frames_view(frames: Seq<Frame>) -> Seq<FrameView> {
    Seq::new(frames.len(), |i: int| frames[i]@)
}

/// A session as seen from outside the multiplexer.
pub struct SessionView {
    /// The document that the session is for.
    pub doc: Seq<u8>,
    pub state: SessionState,
    /// When the authorization of the session ends, if it does.
    pub expiry: Option<u64>,
    /// The frames waiting to be sent.
    pub outbox: Seq<FrameView>,
    /// The presence last published, which is never stored.
    pub awareness: Option<Seq<u8>>,
    /// When the presence was published.
    pub awareness_at: u64,
}

impl SessionView {
    /// The session is attached to `doc`.
    pub open spec fn attached_to(self, doc: Seq<u8>) -> bool {
        self.state == SessionState::Active && self.doc == doc
    }

    /// The presence of the session was published `timeout` ago or earlier.
    pub open spec fn stale(self, now: u64, timeout: u64) -> bool {
        self.awareness is Some && self.awareness_at + timeout <= now
    }

    /// The session without its presence, if that is stale.
    pub open spec fn lapsed(self, now: u64, timeout: u64) -> SessionView {
        if self.stale(now, timeout) {
            SessionView { awareness: None, ..self }
        } else {
            self
        }
    }

    /// The session, after `frame` from session `from` went to the sessions
    /// of `doc`: the other attached sessions of the document receive it.
    pub open spec fn receive(self, me: u64, from: u64, doc: Seq<u8>, frame: FrameView) -> SessionView {
        if me != from && self.attached_to(doc) {
            SessionView { outbox: self.outbox.push(frame), ..self }
        } else {
            self
        }
    }
}

/// The sessions after `frame` from session `from` went to the sessions of
/// `doc`.
pub open spec fn deliver(
    sessions: Map<u64, SessionView>,
    from: u64,
    doc: Seq<u8>,
    frame: FrameView,
) -> Map<u64, SessionView> {
    Map::new(
        |id: u64| sessions.contains_key(id),
        |id: u64| sessions[id].receive(id, from, doc, frame),
    )
}

/// What attaching a session to `doc` at `now` does to the resident
/// documents: a resident document gains a session; a document that was not
/// resident is now, as the store reconstructs it, with one session.
pub open spec fn attaches(
    before: Map<Seq<u8>, DocView>,
    contents: Map<Seq<u8>, Seq<u8>>,
    doc: Seq<u8>,
    now: u64,
    after: Map<Seq<u8>, DocView>,
) -> bool {
    if before.contains_key(doc) {
        after == before.insert(
            doc,
            DocView {
                sessions: before[doc].sessions + 1,
                last_activity: now as nat,
                ..before[doc]
            },
        )
    } else {
        &&& after.contains_key(doc)
        &&& after == before.insert(doc, after[doc])
        &&& !after[doc].dirty
        &&& after[doc].sessions == 1
        &&& after[doc].last_activity == now
        &&& cold(contents, doc, after[doc].image())
    }
}

/// What detaching a session from `doc` at `now` does to the resident
/// documents.
pub open spec fn detaches(before: Map<Seq<u8>, DocView>, doc: Seq<u8>, now: u64) -> Map<
    Seq<u8>,
    DocView,
> {
    before.insert(
        doc,
        DocView {
            sessions: (before[doc].sessions - 1) as nat,
            last_activity: now as nat,
            ..before[doc]
        },
    )
}

/// Whether a session for `doc` is admitted at `now`, and until when. With
/// no key, authorization is switched off and every session is admitted.
pub open spec fn admission(
    key: Option<Seq<u8>>,
    token: Option<Seq<u8>>,
    doc: Seq<u8>,
    now: u64,
) -> Result<Option<u64>, AuthError> {
    match key {
        None => Ok(None),
        Some(key) => match token {
            None => Err(AuthError::Malformed),
            Some(text) => match verdict(key, text, Some(doc), now) {
                Ok(grant) => Ok(grant.expiry),
                Err(e) => Err(e),
            },
        },
    }
}

/// Whether tokens are required.
pub enum AuthMode {
    /// Sessions are admitted only with a token signed by this authenticator.
    Required(Authenticator),
    /// Every session is admitted. For local development only.
    Disabled,
}

impl AuthMode {
    /// The signing key, where tokens are required.
    pub open spec fn key(&self) -> Option<Seq<u8>> {
        match self {
            AuthMode::Required(auth) => Some(auth.key()),
            AuthMode::Disabled => None,
        }
    }
}

struct Session {
    id: u64,
    doc: DocId,
    state: SessionState,
    expiry: Option<u64>,
    handle: Option<Handle>,
    outbox: Vec<Frame>,
    awareness: Option<Vec<u8>>,
    awareness_at: u64,
}

impl Session {
    spec fn summary(&self) -> SessionView {
        SessionView {
            doc: self.doc@,
            state: self.state,
            expiry: self.expiry,
            outbox: frames_view(self.outbox@),
            awareness: match self.awareness {
                Some(bytes) => Some(bytes@),
                None => None,
            },
            awareness_at: self.awareness_at,
        }
    }

    /// An attached session holds the handle of its document, and a session
    /// is not kept once it is closed.
    spec fn sound(&self) -> bool {
        &&& self.state != SessionState::Closed
        &&& self.state == SessionState::Active ==> (self.handle matches Some(h) && h.doc()
            == self.doc@)
    }
}

spec fn distinct(sessions: Seq<Session>) -> bool {
    forall|i: int, j: int| 0 <= i < j < sessions.len() ==> sessions[i].id != sessions[j].id
}

spec fn slot(sessions: Seq<Session>, id: u64) -> int {
    choose|i: int| 0 <= i < sessions.len() && sessions[i].id == id
}

spec fn sessions_map(sessions: Seq<Session>) -> Map<u64, SessionView> {
    Map::new(
        |id: u64| exists|i: int| 0 <= i < sessions.len() && sessions[i].id == id,
        |id: u64| sessions[slot(sessions, id)].summary(),
    )
}

/// The number of sessions attached to `doc`.
spec fn attached(sessions: Seq<Session>, doc: Seq<u8>) -> nat
    decreases sessions.len(),
{
    if sessions.len() == 0 {
        0
    } else {
        attached(sessions.drop_last(), doc) + if sessions.last().summary().attached_to(doc) {
            1nat
        } else {
            0nat
        }
    }
}

/// The engine counts as many sessions on `doc` as are attached to it.
spec fn tallied(sessions: Seq<Session>, residents: Map<Seq<u8>, DocView>, doc: Seq<u8>) -> bool {
    if residents.contains_key(doc) {
        residents[doc].sessions == attached(sessions, doc)
    } else {
        attached(sessions, doc) == 0
    }
}

spec fn one_if(b: bool) -> int {
    if b {
        1
    } else {
        0
    }
}

proof fn lemma_sessions_map(sessions: Seq<Session>)
    requires
        distinct(sessions),
    ensures
        forall|i: int|
            0 <= i < sessions.len() ==> sessions_map(sessions).contains_key(
                #[trigger] sessions[i].id,
            ) && sessions_map(sessions)[sessions[i].id] == sessions[i].summary(),
        forall|id: u64| #[trigger]
            sessions_map(sessions).contains_key(id) ==> 0 <= slot(sessions, id) < sessions.len()
                && sessions[slot(sessions, id)].id == id,
{
    assert forall|i: int| 0 <= i < sessions.len() implies sessions_map(sessions).contains_key(
        #[trigger] sessions[i].id,
    ) && sessions_map(sessions)[sessions[i].id] == sessions[i].summary() by {
        let id = sessions[i].id;
        let j = slot(sessions, id);
        assert(0 <= j < sessions.len() && sessions[j].id == id);
        assert(j == i);
    }
}

proof fn lemma_sessions_replaced(before: Seq<Session>, after: Seq<Session>, at: int)
    requires
        distinct(before),
        0 <= at < before.len(),
        after.len() == before.len(),
        after[at].id == before[at].id,
        forall|i: int| 0 <= i < before.len() && i != at ==> after[i] == before[i],
    ensures
        distinct(after),
        sessions_map(after) == sessions_map(before).insert(after[at].id, after[at].summary()),
        forall|doc: Seq<u8>| #[trigger]
            attached(after, doc) == attached(before, doc) - one_if(
                before[at].summary().attached_to(doc),
            ) + one_if(after[at].summary().attached_to(doc)),
{
    assert forall|i: int, j: int| 0 <= i < j < after.len() implies after[i].id
        != after[j].id by {
        assert(before[i].id != before[j].id);
    }
    lemma_sessions_map(before);
    lemma_sessions_map(after);
    let goal = sessions_map(before).insert(after[at].id, after[at].summary());
    assert forall|id: u64| sessions_map(after).contains_key(id) <==> goal.contains_key(id) by {
        if sessions_map(after).contains_key(id) {
            let p = slot(after, id);
            assert(before[p].id == id);
        }
        if sessions_map(before).contains_key(id) {
            let p = slot(before, id);
            assert(after[p].id == id);
        }
    }
    assert forall|id: u64| sessions_map(after).contains_key(id) implies sessions_map(after)[id]
        == goal[id] by {
        let p = slot(after, id);
        if p != at {
            assert(before[p].id == id);
            assert(after[p] == before[p]);
        }
    }
    assert(sessions_map(after) =~= goal);
    assert forall|doc: Seq<u8>| #[trigger]
        attached(after, doc) == attached(before, doc) - one_if(
            before[at].summary().attached_to(doc),
        ) + one_if(after[at].summary().attached_to(doc)) by {
        lemma_attached_replaced(before, after, at, doc);
    }
}

proof fn lemma_attached_replaced(before: Seq<Session>, after: Seq<Session>, at: int, doc: Seq<u8>)
    requires
        0 <= at < before.len(),
        after.len() == before.len(),
        forall|i: int| 0 <= i < before.len() && i != at ==> after[i] == before[i],
    ensures
        attached(after, doc) == attached(before, doc) - one_if(
            before[at].summary().attached_to(doc),
        ) + one_if(after[at].summary().attached_to(doc)),
    decreases before.len(),
{
    let n = before.len() - 1;
    if at == n {
        assert(after.drop_last() =~= before.drop_last());
    } else {
        assert(after.last() == before.last());
        lemma_attached_replaced(before.drop_last(), after.drop_last(), at, doc);
    }
}

proof fn lemma_sessions_pushed(before: Seq<Session>, session: Session)
    requires
        distinct(before),
        forall|i: int| 0 <= i < before.len() ==> before[i].id != session.id,
    ensures
        distinct(before.push(session)),
        sessions_map(before.push(session)) == sessions_map(before).insert(
            session.id,
            session.summary(),
        ),
        !sessions_map(before).contains_key(session.id),
        forall|doc: Seq<u8>| #[trigger]
            attached(before.push(session), doc) == attached(before, doc) + one_if(
                session.summary().attached_to(doc),
            ),
{
    let after = before.push(session);
    lemma_sessions_map(before);
    lemma_sessions_map(after);
    let goal = sessions_map(before).insert(session.id, session.summary());
    assert forall|id: u64| sessions_map(after).contains_key(id) <==> goal.contains_key(id) by {
        if sessions_map(after).contains_key(id) {
            let p = slot(after, id);
            if p < before.len() {
                assert(before[p].id == id);
            }
        }
        if sessions_map(before).contains_key(id) {
            let p = slot(before, id);
            assert(after[p].id == id);
        }
        if id == session.id {
            assert(after[before.len() as int].id == id);
        }
    }
    assert forall|id: u64| sessions_map(after).contains_key(id) implies sessions_map(after)[id]
        == goal[id] by {
        let p = slot(after, id);
        if p < before.len() {
            assert(before[p].id == id);
            assert(after[p] == before[p]);
        }
    }
    assert(sessions_map(after) =~= goal);
    assert(after.drop_last() =~= before);
}

proof fn lemma_sessions_removed(before: Seq<Session>, at: int)
    requires
        distinct(before),
        0 <= at < before.len(),
    ensures
        distinct(before.remove(at)),
        sessions_map(before.remove(at)) == sessions_map(before).remove(before[at].id),
        forall|doc: Seq<u8>| #[trigger]
            attached(before.remove(at), doc) == attached(before, doc) - one_if(
                before[at].summary().attached_to(doc),
            ),
{
    let after = before.remove(at);
    assert forall|i: int, j: int| 0 <= i < j < after.len() implies after[i].id
        != after[j].id by {
        let bi = if i < at { i } else { i + 1 };
        let bj = if j < at { j } else { j + 1 };
        assert(before[bi].id != before[bj].id);
    }
    lemma_sessions_map(before);
    lemma_sessions_map(after);
    let goal = sessions_map(before).remove(before[at].id);
    assert forall|id: u64| sessions_map(after).contains_key(id) <==> goal.contains_key(id) by {
        if sessions_map(after).contains_key(id) {
            let p = slot(after, id);
            let bp = if p < at { p } else { p + 1 };
            assert(before[bp].id == id);
        }
        if goal.contains_key(id) {
            let p = slot(before, id);
            if p < at {
                assert(after[p].id == id);
            } else {
                assert(after[p - 1].id == id);
            }
        }
    }
    assert forall|id: u64| sessions_map(after).contains_key(id) implies sessions_map(after)[id]
        == goal[id] by {
        let p = slot(after, id);
        let bp = if p < at { p } else { p + 1 };
        assert(after[p] == before[bp]);
        assert(before[bp].id == id);
    }
    assert(sessions_map(after) =~= goal);
    assert forall|doc: Seq<u8>| #[trigger]
        attached(after, doc) == attached(before, doc) - one_if(
            before[at].summary().attached_to(doc),
        ) by {
        lemma_attached_removed(before, at, doc);
    }
}

proof fn lemma_attached_removed(before: Seq<Session>, at: int, doc: Seq<u8>)
    requires
        0 <= at < before.len(),
    ensures
        attached(before.remove(at), doc) == attached(before, doc) - one_if(
            before[at].summary().attached_to(doc),
        ),
    decreases before.len(),
{
    let n = before.len() - 1;
    if at == n {
        assert(before.remove(at) =~= before.drop_last());
    } else {
        assert(before.remove(at).last() == before.last());
        assert(before.remove(at).drop_last() =~= before.drop_last().remove(at));
        lemma_attached_removed(before.drop_last(), at, doc);
    }
}

proof fn lemma_attached_counts(sessions: Seq<Session>, at: int, doc: Seq<u8>)
    requires
        0 <= at < sessions.len(),
        sessions[at].summary().attached_to(doc),
    ensures
        attached(sessions, doc) >= 1,
    decreases sessions.len(),
{
    if at < sessions.len() - 1 {
        lemma_attached_counts(sessions.drop_last(), at, doc);
    }
}

proof fn lemma_attached_same(before: Seq<Session>, after: Seq<Session>, doc: Seq<u8>)
    requires
        after.len() == before.len(),
        forall|j: int|
            0 <= j < before.len() ==> (#[trigger] after[j]).state == before[j].state && after[j].doc@
                == before[j].doc@,
    ensures
        attached(after, doc) == attached(before, doc),
    decreases before.len(),
{
    if before.len() > 0 {
        let n = before.len() - 1;
        assert(after[n].state == before[n].state && after[n].doc@ == before[n].doc@);
        assert forall|j: int| 0 <= j < n implies (#[trigger] after.drop_last()[j]).state
            == before.drop_last()[j].state && after.drop_last()[j].doc@
            == before.drop_last()[j].doc@ by {
            assert(after[j].state == before[j].state);
        }
        lemma_attached_same(before.drop_last(), after.drop_last(), doc);
    }
}

proof fn lemma_pointwise(
    before: Seq<Session>,
    after: Seq<Session>,
    change: spec_fn(u64, SessionView) -> SessionView,
)
    requires
        distinct(before),
        after.len() == before.len(),
        forall|j: int| 0 <= j < before.len() ==> (#[trigger] after[j]).id == before[j].id,
        forall|j: int|
            0 <= j < before.len() ==> (#[trigger] after[j]).summary() == change(
                before[j].id,
                before[j].summary(),
            ),
    ensures
        distinct(after),
        sessions_map(after) == Map::new(
            |id: u64| sessions_map(before).contains_key(id),
            |id: u64| change(id, sessions_map(before)[id]),
        ),
{
    assert forall|i: int, j: int| 0 <= i < j < after.len() implies after[i].id
        != after[j].id by {
        assert(after[i].id == before[i].id);
        assert(after[j].id == before[j].id);
    }
    lemma_sessions_map(before);
    lemma_sessions_map(after);
    let goal = Map::new(
        |id: u64| sessions_map(before).contains_key(id),
        |id: u64| change(id, sessions_map(before)[id]),
    );
    assert forall|id: u64| sessions_map(after).contains_key(id) <==> goal.contains_key(id) by {
        if sessions_map(after).contains_key(id) {
            let p = slot(after, id);
            assert(after[p].id == before[p].id);
        }
        if sessions_map(before).contains_key(id) {
            let p = slot(before, id);
            assert(after[p].id == before[p].id);
        }
    }
    assert forall|id: u64| sessions_map(after).contains_key(id) implies sessions_map(after)[id]
        == goal[id] by {
        let p = slot(after, id);
        assert(after[p].id == before[p].id);
        assert(after[p].summary() == change(before[p].id, before[p].summary()));
    }
    assert(sessions_map(after) =~= goal);
}

proof fn lemma_delivered(
    before: Seq<Session>,
    after: Seq<Session>,
    from: u64,
    doc: Seq<u8>,
    frame: FrameView,
)
    requires
        distinct(before),
        after.len() == before.len(),
        forall|j: int| 0 <= j < before.len() ==> (#[trigger] after[j]).id == before[j].id,
        forall|j: int|
            0 <= j < before.len() ==> (#[trigger] after[j]).summary()
                == before[j].summary().receive(before[j].id, from, doc, frame),
    ensures
        distinct(after),
        sessions_map(after) == deliver(sessions_map(before), from, doc, frame),
{
    lemma_pointwise(
        before,
        after,
        |id: u64, session: SessionView| session.receive(id, from, doc, frame),
    );
    assert(sessions_map(after) =~= deliver(sessions_map(before), from, doc, frame));
}

/// The sessions without the presence that has gone stale.
pub open spec fn lapse(sessions: Map<u64, SessionView>, now: u64, timeout: u64) -> Map<
    u64,
    SessionView,
> {
    Map::new(|id: u64| sessions.contains_key(id), |id: u64| sessions[id].lapsed(now, timeout))
}

/// The text of a token, where one was presented.
pub open spec fn token_view(token: Option<&Vec<u8>>) -> Option<Seq<u8>> {
    match token {
        Some(text) => Some(text@),
        None => None,
    }
}

/// The multiplexer as seen from outside: its sessions, the resident
/// documents and the store.
pub struct MuxView {
    pub sessions: Map<u64, SessionView>,
    pub residents: Map<Seq<u8>, DocView>,
    pub contents: Map<Seq<u8>, Seq<u8>>,
}

/// An update that a session submitted, with the state that the document
/// library made of the document and the update.
pub struct Submission {
    pub session: u64,
    pub update: Seq<u8>,
    pub merged: Seq<u8>,
    pub at: u64,
}

/// The multiplexer after it has accepted a submission: the update is
/// logged under the next sequence number, the merged state is the state of
/// the document, and the other sessions of the document have received the
/// update.
pub open spec fn accepted(v: MuxView, s: Submission) -> MuxView {
    let doc = v.sessions[s.session].doc;
    let held = v.residents[doc];
    MuxView {
        sessions: deliver(v.sessions, s.session, doc, FrameView::Update(s.update)),
        residents: v.residents.insert(
            doc,
            DocView {
                state: s.merged,
                merged_seq: held.merged_seq + 1,
                dirty: true,
                last_activity: s.at as nat,
                ..held
            },
        ),
        contents: v.contents.insert(update_key(doc, held.merged_seq + 1), s.update),
    }
}

/// The multiplexer after it has accepted each of `subs` in turn.
pub open spec fn accepted_all(v: MuxView, subs: Seq<Submission>) -> MuxView
    decreases subs.len(),
{
    if subs.len() == 0 {
        v
    } else {
        accepted(accepted_all(v, subs.drop_last()), subs.last())
    }
}

/// The frames that session `me` receives from `subs`: the updates of the
/// other sessions, in the order of submission.
pub open spec fn heard(subs: Seq<Submission>, me: u64) -> Seq<FrameView>
    decreases subs.len(),
{
    if subs.len() == 0 {
        Seq::empty()
    } else if subs.last().session != me {
        heard(subs.drop_last(), me).push(FrameView::Update(subs.last().update))
    } else {
        heard(subs.drop_last(), me)
    }
}

/// Updates from many sessions. Whatever the order in which the updates of
/// the sessions of one document are accepted, each is logged exactly once,
/// under consecutive sequence numbers in that order, the state of the
/// document is the one that came with the last of them, and every session
/// attached to the document receives the updates of all the others in that
/// same order. No other session receives anything and no other key of the
/// store changes. The bound is that of the sequence numbers.
pub proof fn lemma_serial_updates(v: MuxView, doc: Seq<u8>, subs: Seq<Submission>)
    requires
        v.residents.contains_key(doc),
        v.residents[doc].merged_seq + subs.len() <= u64::MAX,
        forall|i: int|
            0 <= i < subs.len() ==> v.sessions.contains_key(#[trigger] subs[i].session)
                && v.sessions[subs[i].session].attached_to(doc),
    ensures
        ({
            let end = accepted_all(v, subs);
            let first = v.residents[doc].merged_seq + 1;
            &&& end.residents.contains_key(doc)
            &&& end.residents[doc].merged_seq == v.residents[doc].merged_seq + subs.len()
            &&& end.residents[doc].pending == v.residents[doc].pending
            &&& end.residents[doc].state == if subs.len() == 0 {
                v.residents[doc].state
            } else {
                subs.last().merged
            }
            &&& end.residents[doc].sessions == v.residents[doc].sessions
            &&& forall|s: nat|
                first <= s < first + subs.len() ==> end.contents.contains_key(
                    #[trigger] update_key(doc, s),
                ) && end.contents[update_key(doc, s)] == subs[s - first].update
            &&& forall|k: Seq<u8>|
                (forall|s: nat| first <= s < first + subs.len() ==> k != #[trigger] update_key(doc, s))
                    ==> (#[trigger] end.contents.contains_key(k) == v.contents.contains_key(k) && (
                v.contents.contains_key(k) ==> end.contents[k] == v.contents[k]))
            &&& forall|id: u64| #[trigger]
                end.sessions.contains_key(id) == v.sessions.contains_key(id)
            &&& forall|id: u64|
                v.sessions.contains_key(id) ==> #[trigger] end.sessions[id] == if v.sessions[id].attached_to(
                    doc,
                ) {
                    SessionView {
                        outbox: v.sessions[id].outbox + heard(subs, id),
                        ..v.sessions[id]
                    }
                } else {
                    v.sessions[id]
                }
        }),
    decreases subs.len(),
{
    let first = v.residents[doc].merged_seq + 1;
    if subs.len() == 0 {
        assert forall|id: u64| v.sessions.contains_key(id) implies #[trigger] v.sessions[id] == if v.sessions[id].attached_to(
            doc,
        ) {
            SessionView { outbox: v.sessions[id].outbox + heard(subs, id), ..v.sessions[id] }
        } else {
            v.sessions[id]
        } by {
            assert(v.sessions[id].outbox + heard(subs, id) =~= v.sessions[id].outbox);
        }
    } else {
        let front = subs.drop_last();
        let last = subs.last();
        assert forall|i: int| 0 <= i < front.len() implies v.sessions.contains_key(
            #[trigger] front[i].session,
        ) && v.sessions[front[i].session].attached_to(doc) by {
            assert(front[i] == subs[i]);
        }
        lemma_serial_updates(v, doc, front);
        let prev = accepted_all(v, front);
        let end = accepted_all(v, subs);
        assert(end == accepted(prev, last));
        assert(last == subs[subs.len() - 1]);
        assert(v.sessions.contains_key(last.session));
        assert(prev.sessions[last.session].doc == doc);
        let n = (subs.len() - 1) as int;
        let key = update_key(doc, (first + n) as nat);
        assert(end.contents == prev.contents.insert(key, last.update));
        assert forall|s: nat| first <= s < first + subs.len() implies end.contents.contains_key(
            #[trigger] update_key(doc, s),
        ) && end.contents[update_key(doc, s)] == subs[s - first].update by {
            if s < first + n {
                assert(front[s - first] == subs[s - first]);
                assert(prev.contents.contains_key(update_key(doc, s)));
                crate::keys::lemma_keys_apart(doc, doc, s, (first + n) as nat);
            }
        }
        assert forall|k: Seq<u8>|
            (forall|s: nat| first <= s < first + subs.len() ==> k != #[trigger] update_key(doc, s))
                implies (#[trigger] end.contents.contains_key(k) == v.contents.contains_key(k) && (
            v.contents.contains_key(k) ==> end.contents[k] == v.contents[k])) by {
            assert(k != update_key(doc, (first + n) as nat));
            assert forall|s: nat| first <= s < first + front.len() implies k != #[trigger] update_key(
                doc,
                s,
            ) by {}
            assert(prev.contents.contains_key(k) == v.contents.contains_key(k));
        }
        assert forall|id: u64| #[trigger]
            end.sessions.contains_key(id) == v.sessions.contains_key(id) by {
            assert(prev.sessions.contains_key(id) == v.sessions.contains_key(id));
        }
        assert forall|id: u64| v.sessions.contains_key(id) implies #[trigger] end.sessions[id] == if v.sessions[id].attached_to(
            doc,
        ) {
            SessionView { outbox: v.sessions[id].outbox + heard(subs, id), ..v.sessions[id] }
        } else {
            v.sessions[id]
        } by {
            assert(prev.sessions.contains_key(id));
            let before = prev.sessions[id];
            assert(end.sessions[id] == before.receive(
                id,
                last.session,
                doc,
                FrameView::Update(last.update),
            ));
            if v.sessions[id].attached_to(doc) {
                if id != last.session {
                    assert((v.sessions[id].outbox + heard(front, id)).push(
                        FrameView::Update(last.update),
                    ) =~= v.sessions[id].outbox + heard(subs, id));
                }
            }
        }
    }
}

/// The multiplexer over an engine with a store of type `S`.
pub struct Multiplexer<S: Store> {
    engine: Engine<S>,
    auth: AuthMode,
    sessions: Vec<Session>,
    next_id: u64,
}

impl<S: Store> Multiplexer<S> {
    /// The sessions, by number.
    pub closed spec fn sessions(&self) -> Map<u64, SessionView> {
        sessions_map(self.sessions@)
    }

    /// The resident documents of the engine.
    pub closed spec fn residents(&self) -> Map<Seq<u8>, DocView> {
        self.engine.residents()
    }

    /// What the store holds.
    pub closed spec fn contents(&self) -> Map<Seq<u8>, Seq<u8>> {
        self.engine.contents()
    }

    /// The store cannot fail.
    pub closed spec fn reliable(&self) -> bool {
        self.engine.reliable()
    }

    /// The signing key, where tokens are required.
    pub closed spec fn key(&self) -> Option<Seq<u8>> {
        self.auth.key()
    }

    /// How long a document without sessions stays resident.
    pub closed spec fn idle_threshold(&self) -> u64 {
        self.engine.idle_threshold()
    }

    /// The number that the next session gets.
    pub closed spec fn next_id(&self) -> u64 {
        self.next_id
    }

    /// The sessions, the resident documents and the store together.
    pub open spec fn view(&self) -> MuxView {
        MuxView {
            sessions: self.sessions(),
            residents: self.residents(),
            contents: self.contents(),
        }
    }

    /// The sessions are numbered apart, and the engine counts on each
    /// document the sessions that are attached to it.
    pub closed spec fn consistent(&self) -> bool {
        &&& self.engine.single_authority()
        &&& distinct(self.sessions@)
        &&& forall|i: int| 0 <= i < self.sessions.len() ==> #[trigger] self.sessions[i].sound()
        &&& forall|i: int| 0 <= i < self.sessions.len() ==> #[trigger] self.sessions[i].id < self.next_id
        &&& forall|doc: Seq<u8>| #[trigger] tallied(self.sessions@, self.engine.residents(), doc)
    }

    /// The multiplexer's invariant.
    pub open spec fn wf(&self) -> bool {
        &&& self.consistent()
        &&& forall|doc: Seq<u8>| #[trigger]
            self.residents().contains_key(doc) ==> self.residents()[doc].kept_by(
                self.contents(),
                doc,
            )
        &&& forall|id: u64| #[trigger]
            self.sessions().contains_key(id) ==> id < self.next_id() && self.sessions()[id].state
                != SessionState::Closed
    }

    spec fn inner_wf(&self) -> bool {
        self.consistent() && self.engine.wf()
    }

    proof fn lemma_wf(&self)
        ensures
            self.wf() == self.inner_wf(),
    {
        if self.consistent() {
            lemma_sessions_map(self.sessions@);
            if self.engine.wf() {
                assert forall|id: u64| #[trigger] self.sessions().contains_key(id) implies id
                    < self.next_id() && self.sessions()[id].state != SessionState::Closed by {
                    let p = slot(self.sessions@, id);
                    assert(self.sessions[p].sound());
                    assert(self.sessions[p].id < self.next_id);
                }
                assert forall|doc: Seq<u8>| #[trigger]
                    self.residents().contains_key(doc) implies self.residents()[doc].kept_by(
                    self.contents(),
                    doc,
                ) by {
                    assert(self.engine.residents().contains_key(doc));
                }
                assert(self.wf());
            }
            if self.wf() {
                assert forall|doc: Seq<u8>| #[trigger]
                    self.engine.residents().contains_key(doc) implies self.engine.residents()[doc].kept_by(
                    self.engine.contents(),
                    doc,
                ) by {
                    assert(self.residents().contains_key(doc));
                }
                assert(self.engine.wf());
            }
        }
    }

    /// A multiplexer with no session, over a new engine on `store`.
    pub fn new(store: S, idle_threshold: u64, auth: AuthMode) -> (mux: Multiplexer<S>)
        ensures
            mux.wf(),
            mux.sessions() == Map::<u64, SessionView>::empty(),
            mux.residents() == Map::<Seq<u8>, DocView>::empty(),
            mux.contents() == store.contents(),
            mux.reliable() == store.reliable(),
            mux.idle_threshold() == idle_threshold,
            mux.key() == auth.key(),
            mux.next_id() == 0,
    {
        let engine = Engine::new(store, idle_threshold);
        let mux = Multiplexer { engine, auth, sessions: Vec::new(), next_id: 0 };
        proof {
            assert(mux.sessions() =~= Map::<u64, SessionView>::empty());
            assert forall|doc: Seq<u8>| #[trigger]
                tallied(mux.sessions@, mux.engine.residents(), doc) by {}
            mux.lemma_wf();
        }
        mux
    }

    /// The engine.
    pub fn engine(&self) -> (engine: &Engine<S>)
        ensures
            engine.residents() == self.residents(),
            engine.contents() == self.contents(),
            engine.reliable() == self.reliable(),
            engine.idle_threshold() == self.idle_threshold(),
            self.wf() ==> engine.wf(),
    {
        proof {
            self.lemma_wf();
        }
        &self.engine
    }

    /// Gives the engine back, as when the server stops.
    pub fn into_engine(self) -> (engine: Engine<S>)
        ensures
            engine.residents() == self.residents(),
            engine.contents() == self.contents(),
            engine.reliable() == self.reliable(),
            engine.idle_threshold() == self.idle_threshold(),
            self.wf() ==> engine.wf(),
    {
        proof {
            self.lemma_wf();
        }
        self.engine
    }

    fn find(&self, id: u64) -> (r: Option<usize>)
        ensures
            match r {
                Some(i) => i < self.sessions.len() && self.sessions[i as int].id == id,
                None => forall|j: int| 0 <= j < self.sessions.len() ==> self.sessions[j].id != id,
            },
            distinct(self.sessions@) ==> (r is Some <==> self.sessions().contains_key(id)),
    {
        let mut i: usize = 0;
        while i < self.sessions.len()
            invariant
                i <= self.sessions.len(),
                forall|j: int| 0 <= j < i ==> self.sessions[j].id != id,
            decreases self.sessions.len() - i,
        {
            if self.sessions[i].id == id {
                proof {
                    if distinct(self.sessions@) {
                        lemma_sessions_map(self.sessions@);
                    }
                }
                return Some(i);
            }
            i = i + 1;
        }
        proof {
            if distinct(self.sessions@) {
                lemma_sessions_map(self.sessions@);
            }
        }
        None
    }

    /// The state of a session; a session that is not known is closed.
    pub fn state_of(&self, id: u64) -> (state: SessionState)
        requires
            self.wf(),
        ensures
            state == if self.sessions().contains_key(id) {
                self.sessions()[id].state
            } else {
                SessionState::Closed
            },
    {
        proof {
            self.lemma_wf();
            lemma_sessions_map(self.sessions@);
        }
        match self.find(id) {
            Some(i) => self.sessions[i].state,
            None => SessionState::Closed,
        }
    }

    /// Opens a session for `doc`. The session is connecting: it has yet to
    /// be authorized.
    pub fn connect(&mut self, doc: &DocId) -> (r: Result<u64, MuxError>)
        requires
            old(self).wf(),
        ensures
            final(self).wf(),
            final(self).residents() == old(self).residents(),
            final(self).contents() == old(self).contents(),
            final(self).reliable() == old(self).reliable(),
            final(self).key() == old(self).key(),
            final(self).idle_threshold() == old(self).idle_threshold(),
            match r {
                Ok(id) => {
                    &&& id == old(self).next_id()
                    &&& id < u64::MAX
                    &&& final(self).next_id() == id + 1
                    &&& !old(self).sessions().contains_key(id)
                    &&& final(self).sessions() == old(self).sessions().insert(
                        id,
                        SessionView {
                            doc: doc@,
                            state: SessionState::Connecting,
                            expiry: None,
                            outbox: Seq::empty(),
                            awareness: None,
                            awareness_at: 0,
                        },
                    )
                },
                Err(e) => {
                    &&& e == MuxError::TooManySessions
                    &&& old(self).next_id() == u64::MAX
                    &&& final(self).next_id() == old(self).next_id()
                    &&& final(self).sessions() == old(self).sessions()
                },
            },
    {
        proof {
            self.lemma_wf();
            lemma_sessions_map(self.sessions@);
        }
        if self.next_id == u64::MAX {
            return Err(MuxError::TooManySessions);
        }
        let id: u64 = self.next_id;
        let session = Session {
            id,
            doc: doc.duplicate(),
            state: SessionState::Connecting,
            expiry: None,
            handle: None,
            outbox: Vec::new(),
            awareness: None,
            awareness_at: 0,
        };
        proof {
            assert(session.summary().outbox =~= Seq::<FrameView>::empty());
            lemma_sessions_pushed(self.sessions@, session);
        }
        self.sessions.push(session);
        self.next_id = id + 1;
        proof {
            assert forall|d: Seq<u8>| #[trigger]
                tallied(self.sessions@, self.engine.residents(), d) by {
                assert(tallied(old(self).sessions@, old(self).engine.residents(), d));
                assert(attached(self.sessions@, d) == attached(old(self).sessions@, d) + one_if(
                    session.summary().attached_to(d),
                ));
            }
            self.lemma_wf();
        }
        Ok(id)
    }

    /// Removes the session at `at`, detaching it from its document if it is
    /// attached.
    fn drop_session(&mut self, at: usize, now: u64)
        requires
            old(self).inner_wf(),
            at < old(self).sessions.len(),
        ensures
            final(self).inner_wf(),
            final(self).sessions@ == old(self).sessions@.remove(at as int),
            final(self).next_id == old(self).next_id,
            final(self).auth == old(self).auth,
            final(self).engine.contents() == old(self).engine.contents(),
            final(self).engine.reliable() == old(self).engine.reliable(),
            final(self).engine.idle_threshold() == old(self).engine.idle_threshold(),
            final(self).engine.residents() == if old(self).sessions[at as int].state
                == SessionState::Active {
                detaches(
                    old(self).engine.residents(),
                    old(self).sessions[at as int].doc@,
                    now,
                )
            } else {
                old(self).engine.residents()
            },
    {
        let session = self.sessions.remove(at);
        proof {
            lemma_sessions_removed(old(self).sessions@, at as int);
            assert(old(self).sessions[at as int].sound());
        }
        let ghost doc = session.doc@;
        match session.handle {
            Some(handle) => {
                if session.state == SessionState::Active {
                    proof {
                        lemma_attached_counts(old(self).sessions@, at as int, doc);
                        assert(tallied(old(self).sessions@, old(self).engine.residents(), doc));
                    }
                    match self.engine.release(&handle, now) {
                        Ok(_) => {},
                        Err(_) => {},
                    }
                }
            },
            None => {},
        }
        proof {
            assert forall|d: Seq<u8>| #[trigger]
                tallied(self.sessions@, self.engine.residents(), d) by {
                assert(tallied(old(self).sessions@, old(self).engine.residents(), d));
                assert(attached(self.sessions@, d) == attached(old(self).sessions@, d) - one_if(
                    session.summary().attached_to(d),
                ));
            }
            assert forall|i: int| 0 <= i < self.sessions.len() implies #[trigger] self.sessions[i].sound()
                && self.sessions[i].id < self.next_id by {
                let bi = if i < at { i } else { i + 1 };
                assert(old(self).sessions[bi].sound());
                assert(old(self).sessions[bi].id < old(self).next_id);
            }
        }
    }

    /// Closes a session. An attached session is detached from its
    /// document, which stays resident; what the session published and what
    /// was waiting to be sent to it is dropped.
    pub fn close(&mut self, id: u64, now: u64) -> (r: Result<(), MuxError>)
        requires
            old(self).wf(),
        ensures
            final(self).wf(),
            final(self).contents() == old(self).contents(),
            final(self).reliable() == old(self).reliable(),
            final(self).key() == old(self).key(),
            final(self).next_id() == old(self).next_id(),
            final(self).idle_threshold() == old(self).idle_threshold(),
            match r {
                Ok(()) => {
                    &&& old(self).sessions().contains_key(id)
                    &&& final(self).sessions() == old(self).sessions().remove(id)
                    &&& final(self).residents() == if old(self).sessions()[id].state
                        == SessionState::Active {
                        detaches(old(self).residents(), old(self).sessions()[id].doc, now)
                    } else {
                        old(self).residents()
                    }
                },
                Err(e) => {
                    &&& e == MuxError::UnknownSession
                    &&& !old(self).sessions().contains_key(id)
                    &&& final(self).sessions() == old(self).sessions()
                    &&& final(self).residents() == old(self).residents()
                },
            },
    {
        proof {
            self.lemma_wf();
            lemma_sessions_map(self.sessions@);
        }
        match self.find(id) {
            None => Err(MuxError::UnknownSession),
            Some(i) => {
                proof {
                    lemma_sessions_removed(self.sessions@, i as int);
                }
                self.drop_session(i, now);
                proof {
                    self.lemma_wf();
                }
                Ok(())
            },
        }
    }

    /// Takes the frames waiting to be sent to a session, oldest first.
    pub fn drain(&mut self, id: u64) -> (r: Result<Vec<Frame>, MuxError>)
        requires
            old(self).wf(),
        ensures
            final(self).wf(),
            final(self).residents() == old(self).residents(),
            final(self).contents() == old(self).contents(),
            final(self).reliable() == old(self).reliable(),
            final(self).key() == old(self).key(),
            final(self).next_id() == old(self).next_id(),
            final(self).idle_threshold() == old(self).idle_threshold(),
            match r {
                Ok(frames) => {
                    &&& old(self).sessions().contains_key(id)
                    &&& frames_view(frames@) == old(self).sessions()[id].outbox
                    &&& final(self).sessions() == old(self).sessions().insert(
                        id,
                        SessionView { outbox: Seq::empty(), ..old(self).sessions()[id] },
                    )
                },
                Err(e) => {
                    &&& e == MuxError::UnknownSession
                    &&& !old(self).sessions().contains_key(id)
                    &&& final(self).sessions() == old(self).sessions()
                },
            },
    {
        proof {
            self.lemma_wf();
            lemma_sessions_map(self.sessions@);
        }
        match self.find(id) {
            None => Err(MuxError::UnknownSession),
            Some(i) => {
                let mut session = self.sessions.remove(i);
                let mut frames: Vec<Frame> = Vec::new();
                std::mem::swap(&mut frames, &mut session.outbox);
                proof {
                    assert(old(self).sessions[i as int].sound());
                    assert(session.summary().outbox =~= Seq::<FrameView>::empty());
                }
                self.sessions.insert(i, session);
                proof {
                    lemma_sessions_replaced(old(self).sessions@, self.sessions@, i as int);
                    self.lemma_kept(old(self), i as int);
                }
                Ok(frames)
            },
        }
    }

    /// Admits a client to `doc`: checks its token, attaches it to the
    /// document, loading the document if it is not resident, and opens an
    /// active session for it.
    ///
    /// The token is checked first. A client that is refused leaves no trace:
    /// no session is created and no document is loaded for it.
    pub fn join(&mut self, doc: &DocId, token: Option<&Vec<u8>>, now: u64) -> (r: Result<
        u64,
        MuxError,
    >)
        requires
            old(self).wf(),
        ensures
            final(self).wf(),
            final(self).contents() == old(self).contents(),
            final(self).reliable() == old(self).reliable(),
            final(self).key() == old(self).key(),
            final(self).idle_threshold() == old(self).idle_threshold(),
            match r {
                Ok(id) => {
                    &&& id == old(self).next_id()
                    &&& id < u64::MAX
                    &&& final(self).next_id() == id + 1
                    &&& admission(old(self).key(), token_view(token), doc@, now) is Ok
                    &&& final(self).sessions() == old(self).sessions().insert(
                        id,
                        SessionView {
                            doc: doc@,
                            state: SessionState::Active,
                            expiry: admission(old(self).key(), token_view(token), doc@, now)->Ok_0,
                            outbox: Seq::empty(),
                            awareness: None,
                            awareness_at: 0,
                        },
                    )
                    &&& attaches(
                        old(self).residents(),
                        old(self).contents(),
                        doc@,
                        now,
                        final(self).residents(),
                    )
                },
                Err(e) => {
                    &&& final(self).sessions() == old(self).sessions()
                    &&& final(self).residents() == old(self).residents()
                    &&& final(self).next_id() == old(self).next_id()
                    &&& e == MuxError::Unauthorized <==> admission(
                        old(self).key(),
                        token_view(token),
                        doc@,
                        now,
                    ) is Err
                    &&& e == MuxError::TooManySessions <==> admission(
                        old(self).key(),
                        token_view(token),
                        doc@,
                        now,
                    ) is Ok && old(self).next_id() == u64::MAX
                    &&& e matches MuxError::Engine(cause) ==> {
                        &&& cause == EngineError::TooManySessions <==> old(self).residents().contains_key(doc@)
                        &&& cause == EngineError::DocLoad ==> !loadable(old(self).contents(), doc@)
                        &&& cause is Store ==> !old(self).reliable()
                        &&& cause == EngineError::TooManySessions || cause == EngineError::DocLoad
                            || cause is Store
                    }
                    &&& e == MuxError::Unauthorized || e == MuxError::TooManySessions || e is Engine
                },
            },
    {
        proof {
            self.lemma_wf();
            lemma_sessions_map(self.sessions@);
        }
        let admitted: Result<Option<u64>, AuthError> = match &self.auth {
            AuthMode::Disabled => Ok(None),
            AuthMode::Required(auth) => match token {
                None => Err(AuthError::Malformed),
                Some(text) => match auth.verify(text, Some(doc), now) {
                    Ok(grant) => Ok(grant.expiry),
                    Err(e) => Err(e),
                },
            },
        };
        let expiry = match admitted {
            Err(_) => {
                return Err(MuxError::Unauthorized);
            },
            Ok(expiry) => expiry,
        };
        if self.next_id == u64::MAX {
            return Err(MuxError::TooManySessions);
        }
        let handle = match self.engine.load(doc, now) {
            Err(e) => {
                proof {
                    self.lemma_wf();
                }
                return Err(MuxError::Engine(e));
            },
            Ok(handle) => handle,
        };
        let id: u64 = self.next_id;
        let session = Session {
            id,
            doc: doc.duplicate(),
            state: SessionState::Active,
            expiry,
            handle: Some(handle),
            outbox: Vec::new(),
            awareness: None,
            awareness_at: 0,
        };
        proof {
            assert(session.summary().outbox =~= Seq::<FrameView>::empty());
            lemma_sessions_pushed(self.sessions@, session);
        }
        self.sessions.push(session);
        self.next_id = id + 1;
        proof {
            assert forall|d: Seq<u8>| #[trigger]
                tallied(self.sessions@, self.engine.residents(), d) by {
                assert(tallied(old(self).sessions@, old(self).engine.residents(), d));
                assert(attached(self.sessions@, d) == attached(old(self).sessions@, d) + one_if(
                    session.summary().attached_to(d),
                ));
            }
            self.lemma_wf();
        }
        Ok(id)
    }

    /// Authorizes a connecting session with the token it presented.
    ///
    /// Where tokens are required, the token must be well formed, signed
    /// with the key, not expired, and cover the document of the session.
    /// A session that is refused is closed.
    pub fn authorize(&mut self, id: u64, token: Option<&Vec<u8>>, now: u64) -> (r: Result<
        (),
        MuxError,
    >)
        requires
            old(self).wf(),
        ensures
            final(self).wf(),
            final(self).residents() == old(self).residents(),
            final(self).contents() == old(self).contents(),
            final(self).reliable() == old(self).reliable(),
            final(self).key() == old(self).key(),
            final(self).next_id() == old(self).next_id(),
            final(self).idle_threshold() == old(self).idle_threshold(),
            match r {
                Ok(()) => {
                    let was = old(self).sessions()[id];
                    &&& old(self).sessions().contains_key(id)
                    &&& was.state == SessionState::Connecting
                    &&& admission(old(self).key(), token_view(token), was.doc, now) is Ok
                    &&& final(self).sessions() == old(self).sessions().insert(
                        id,
                        SessionView {
                            state: SessionState::Authorized,
                            expiry: admission(old(self).key(), token_view(token), was.doc, now)->Ok_0,
                            ..was
                        },
                    )
                },
                Err(e) => {
                    let was = old(self).sessions()[id];
                    &&& e == MuxError::UnknownSession <==> !old(self).sessions().contains_key(id)
                    &&& e == MuxError::WrongState <==> old(self).sessions().contains_key(id)
                        && was.state != SessionState::Connecting
                    &&& e == MuxError::Unauthorized <==> old(self).sessions().contains_key(id)
                        && was.state == SessionState::Connecting && admission(
                        old(self).key(),
                        token_view(token),
                        was.doc,
                        now,
                    ) is Err
                    &&& final(self).sessions() == if e == MuxError::Unauthorized {
                        old(self).sessions().remove(id)
                    } else {
                        old(self).sessions()
                    }
                    &&& e == MuxError::UnknownSession || e == MuxError::WrongState || e
                        == MuxError::Unauthorized
                },
            },
    {
        proof {
            self.lemma_wf();
            lemma_sessions_map(self.sessions@);
        }
        let i = match self.find(id) {
            None => {
                return Err(MuxError::UnknownSession);
            },
            Some(i) => i,
        };
        if self.sessions[i].state != SessionState::Connecting {
            return Err(MuxError::WrongState);
        }
        let admitted: Result<Option<u64>, AuthError> = match &self.auth {
            AuthMode::Disabled => Ok(None),
            AuthMode::Required(auth) => match token {
                None => Err(AuthError::Malformed),
                Some(text) => match auth.verify(text, Some(&self.sessions[i].doc), now) {
                    Ok(grant) => Ok(grant.expiry),
                    Err(e) => Err(e),
                },
            },
        };
        match admitted {
            Err(_) => {
                proof {
                    lemma_sessions_removed(self.sessions@, i as int);
                }
                self.drop_session(i, now);
                proof {
                    self.lemma_wf();
                }
                Err(MuxError::Unauthorized)
            },
            Ok(expiry) => {
                let mut session = self.sessions.remove(i);
                session.state = SessionState::Authorized;
                session.expiry = expiry;
                self.sessions.insert(i, session);
                proof {
                    lemma_sessions_replaced(old(self).sessions@, self.sessions@, i as int);
                    self.lemma_kept(old(self), i as int);
                }
                Ok(())
            },
        }
    }

    /// Attaches an authorized session to its document, loading the document
    /// if it is not resident. From then on the session is active. If the
    /// document cannot be loaded the session is closed.
    pub fn attach(&mut self, id: u64, now: u64) -> (r: Result<(), MuxError>)
        requires
            old(self).wf(),
        ensures
            final(self).wf(),
            final(self).contents() == old(self).contents(),
            final(self).reliable() == old(self).reliable(),
            final(self).key() == old(self).key(),
            final(self).next_id() == old(self).next_id(),
            final(self).idle_threshold() == old(self).idle_threshold(),
            match r {
                Ok(()) => {
                    let was = old(self).sessions()[id];
                    &&& old(self).sessions().contains_key(id)
                    &&& was.state == SessionState::Authorized
                    &&& final(self).sessions() == old(self).sessions().insert(
                        id,
                        SessionView { state: SessionState::Active, ..was },
                    )
                    &&& attaches(
                        old(self).residents(),
                        old(self).contents(),
                        was.doc,
                        now,
                        final(self).residents(),
                    )
                },
                Err(e) => {
                    let was = old(self).sessions()[id];
                    &&& final(self).residents() == old(self).residents()
                    &&& e == MuxError::UnknownSession <==> !old(self).sessions().contains_key(id)
                    &&& e == MuxError::WrongState <==> old(self).sessions().contains_key(id)
                        && was.state != SessionState::Authorized
                    &&& final(self).sessions() == if e is Engine {
                        old(self).sessions().remove(id)
                    } else {
                        old(self).sessions()
                    }
                    &&& e matches MuxError::Engine(cause) ==> {
                        &&& cause == EngineError::TooManySessions <==> old(self).residents().contains_key(was.doc)
                        &&& cause == EngineError::DocLoad ==> !loadable(old(self).contents(), was.doc)
                        &&& cause is Store ==> !old(self).reliable()
                        &&& cause == EngineError::TooManySessions || cause == EngineError::DocLoad
                            || cause is Store
                    }
                    &&& e == MuxError::UnknownSession || e == MuxError::WrongState || e is Engine
                },
            },
    {
        proof {
            self.lemma_wf();
            lemma_sessions_map(self.sessions@);
        }
        let i = match self.find(id) {
            None => {
                return Err(MuxError::UnknownSession);
            },
            Some(i) => i,
        };
        if self.sessions[i].state != SessionState::Authorized {
            return Err(MuxError::WrongState);
        }
        let doc = self.sessions[i].doc.duplicate();
        match self.engine.load(&doc, now) {
            Err(e) => {
                proof {
                    lemma_sessions_removed(self.sessions@, i as int);
                }
                self.drop_session(i, now);
                proof {
                    self.lemma_wf();
                }
                Err(MuxError::Engine(e))
            },
            Ok(handle) => {
                let mut session = self.sessions.remove(i);
                session.state = SessionState::Active;
                session.handle = Some(handle);
                self.sessions.insert(i, session);
                proof {
                    lemma_sessions_replaced(old(self).sessions@, self.sessions@, i as int);
                    assert forall|j: int| 0 <= j < self.sessions.len() implies #[trigger] self.sessions[j].sound()
                        && self.sessions[j].id < self.next_id by {
                        assert(old(self).sessions[j].sound());
                        assert(old(self).sessions[j].id < old(self).next_id);
                    }
                    assert forall|d: Seq<u8>| #[trigger]
                        tallied(self.sessions@, self.engine.residents(), d) by {
                        assert(tallied(old(self).sessions@, old(self).engine.residents(), d));
                        assert(attached(self.sessions@, d) == attached(old(self).sessions@, d)
                            - one_if(old(self).sessions[i as int].summary().attached_to(d))
                            + one_if(self.sessions[i as int].summary().attached_to(d)));
                    }
                    self.lemma_wf();
                }
                Ok(())
            },
        }
    }

    /// Hands `frame` to every session attached to `doc` but the session
    /// numbered `from`.
    fn broadcast(&mut self, from: u64, doc: &DocId, frame: &Frame)
        requires
            old(self).inner_wf(),
        ensures
            final(self).inner_wf(),
            final(self).engine == old(self).engine,
            final(self).auth == old(self).auth,
            final(self).next_id == old(self).next_id,
            sessions_map(final(self).sessions@) == deliver(
                sessions_map(old(self).sessions@),
                from,
                doc@,
                frame@,
            ),
    {
        let n: usize = self.sessions.len();
        let mut i: usize = 0;
        while i < n
            invariant
                i <= n,
                n == self.sessions.len(),
                n == old(self).sessions.len(),
                self.engine == old(self).engine,
                self.auth == old(self).auth,
                self.next_id == old(self).next_id,
                forall|j: int|
                    0 <= j < n ==> (#[trigger] self.sessions[j]).id == old(self).sessions[j].id
                        && self.sessions[j].state == old(self).sessions[j].state
                        && self.sessions[j].doc@ == old(self).sessions[j].doc@
                        && self.sessions[j].handle == old(self).sessions[j].handle,
                forall|j: int|
                    0 <= j < i ==> (#[trigger] self.sessions[j]).summary() == old(self).sessions[j].summary().receive(
                        old(self).sessions[j].id,
                        from,
                        doc@,
                        frame@,
                    ),
                forall|j: int| i <= j < n ==> #[trigger] self.sessions[j] == old(self).sessions[j],
            decreases n - i,
        {
            let sibling = self.sessions[i].id != from && self.sessions[i].state
                == SessionState::Active && self.sessions[i].doc.same(doc);
            if sibling {
                let ghost before = self.sessions@;
                let mut session = self.sessions.remove(i);
                let ghost was = session.summary();
                session.outbox.push(frame.duplicate());
                proof {
                    assert(session.summary().outbox =~= was.outbox.push(frame@));
                }
                self.sessions.insert(i, session);
                proof {
                    assert forall|j: int| 0 <= j < n && j != i implies self.sessions[j]
                        == before[j] by {}
                }
            }
            i = i + 1;
        }
        proof {
            lemma_delivered(old(self).sessions@, self.sessions@, from, doc@, frame@);
            assert forall|j: int| 0 <= j < self.sessions.len() implies #[trigger] self.sessions[j].sound()
                && self.sessions[j].id < self.next_id by {
                assert(old(self).sessions[j].sound());
                assert(old(self).sessions[j].id < old(self).next_id);
            }
            assert forall|d: Seq<u8>| #[trigger]
                tallied(self.sessions@, self.engine.residents(), d) by {
                assert(tallied(old(self).sessions@, old(self).engine.residents(), d));
                lemma_attached_same(old(self).sessions@, self.sessions@, d);
            }
        }
    }

    /// Accepts an update from an active session: the engine logs it and
    /// takes `merged`, what the document library makes of the state of the
    /// document and the update, as the state; every other session attached
    /// to the same document receives the update. Returns the sequence
    /// number of the update.
    ///
    /// If the authorization of the session has expired, the session is
    /// closed and the update is refused. If the engine refuses the update,
    /// nothing changes and nothing is sent.
    pub fn submit_update(&mut self, id: u64, update: &Vec<u8>, merged: Vec<u8>, now: u64) -> (r: Result<
        u64,
        MuxError,
    >)
        requires
            old(self).wf(),
        ensures
            final(self).wf(),
            final(self).reliable() == old(self).reliable(),
            final(self).key() == old(self).key(),
            final(self).next_id() == old(self).next_id(),
            final(self).idle_threshold() == old(self).idle_threshold(),
            match r {
                Ok(seq) => {
                    let was = old(self).sessions()[id];
                    let held = old(self).residents()[was.doc];
                    &&& old(self).sessions().contains_key(id)
                    &&& was.state == SessionState::Active
                    &&& !expired(was.expiry, now)
                    &&& old(self).residents().contains_key(was.doc)
                    &&& held.pending.len() == 0
                    &&& seq == held.merged_seq + 1
                    &&& final(self).view() == accepted(
                        old(self).view(),
                        Submission { session: id, update: update@, merged: merged@, at: now },
                    )
                },
                Err(e) => {
                    let was = old(self).sessions()[id];
                    let held = old(self).residents()[was.doc];
                    &&& final(self).contents() == old(self).contents()
                    &&& e == MuxError::UnknownSession <==> !old(self).sessions().contains_key(id)
                    &&& e == MuxError::WrongState <==> old(self).sessions().contains_key(id)
                        && was.state != SessionState::Active
                    &&& e == MuxError::Unauthorized <==> old(self).sessions().contains_key(id)
                        && was.state == SessionState::Active && expired(was.expiry, now)
                    &&& final(self).sessions() == if e == MuxError::Unauthorized {
                        old(self).sessions().remove(id)
                    } else {
                        old(self).sessions()
                    }
                    &&& final(self).residents() == if e == MuxError::Unauthorized {
                        detaches(old(self).residents(), was.doc, now)
                    } else {
                        old(self).residents()
                    }
                    &&& e matches MuxError::Engine(cause) ==> {
                        &&& cause == EngineError::Lagging <==> held.pending.len() > 0
                        &&& cause == EngineError::SequenceExhausted <==> held.pending.len() == 0
                            && held.merged_seq == u64::MAX
                        &&& cause is Store ==> !old(self).reliable()
                        &&& cause == EngineError::Lagging || cause
                            == EngineError::SequenceExhausted || cause is Store
                    }
                    &&& e == MuxError::UnknownSession || e == MuxError::WrongState || e
                        == MuxError::Unauthorized || e is Engine
                },
            },
    {
        proof {
            self.lemma_wf();
            lemma_sessions_map(self.sessions@);
        }
        let i = match self.find(id) {
            None => {
                return Err(MuxError::UnknownSession);
            },
            Some(i) => i,
        };
        if self.sessions[i].state != SessionState::Active {
            return Err(MuxError::WrongState);
        }
        proof {
            assert(self.sessions[i as int].sound());
            lemma_attached_counts(self.sessions@, i as int, self.sessions[i as int].doc@);
            assert(tallied(self.sessions@, self.engine.residents(), self.sessions[i as int].doc@));
        }
        let lapsed = match self.sessions[i].expiry {
            Some(t) => t < now,
            None => false,
        };
        if lapsed {
            proof {
                lemma_sessions_removed(self.sessions@, i as int);
            }
            self.drop_session(i, now);
            proof {
                self.lemma_wf();
            }
            return Err(MuxError::Unauthorized);
        }
        let doc = self.sessions[i].doc.duplicate();
        let outcome = match &self.sessions[i].handle {
            Some(handle) => {
                let handle = handle.duplicate();
                self.engine.apply_update(&handle, update, merged, now)
            },
            None => Err(EngineError::NotResident),
        };
        match outcome {
            Err(e) => {
                proof {
                    self.lemma_wf();
                }
                Err(MuxError::Engine(e))
            },
            Ok(seq) => {
                proof {
                    assert forall|d: Seq<u8>| #[trigger]
                        tallied(self.sessions@, self.engine.residents(), d) by {
                        assert(tallied(old(self).sessions@, old(self).engine.residents(), d));
                    }
                }
                let frame = Frame::Update(copy_bytes(update));
                self.broadcast(id, &doc, &frame);
                proof {
                    self.lemma_wf();
                }
                Ok(seq)
            },
        }
    }

    /// Takes `merged` as the state of a resident document that has pending
    /// updates, as [`Engine::absorb`] does. Returns the sequence number of
    /// the update that is pending no longer.
    pub fn absorb(&mut self, doc: &DocId, merged: Vec<u8>) -> (r: Result<u64, MuxError>)
        requires
            old(self).wf(),
        ensures
            final(self).wf(),
            final(self).sessions() == old(self).sessions(),
            final(self).contents() == old(self).contents(),
            final(self).reliable() == old(self).reliable(),
            final(self).key() == old(self).key(),
            final(self).next_id() == old(self).next_id(),
            final(self).idle_threshold() == old(self).idle_threshold(),
            match r {
                Ok(seq) => {
                    let was = old(self).residents()[doc@];
                    &&& old(self).residents().contains_key(doc@)
                    &&& was.pending.len() > 0
                    &&& seq == was.merged_seq + 1
                    &&& final(self).residents() == old(self).residents().insert(
                        doc@,
                        DocView {
                            state: merged@,
                            merged_seq: seq as nat,
                            pending: was.pending.drop_first(),
                            dirty: true,
                            ..was
                        },
                    )
                },
                Err(e) => {
                    &&& final(self).residents() == old(self).residents()
                    &&& e == MuxError::Engine(EngineError::NotResident) <==> !old(self).residents().contains_key(doc@)
                    &&& e == MuxError::Engine(EngineError::NothingPending) <==> old(self).residents().contains_key(doc@) && old(self).residents()[doc@].pending.len()
                        == 0
                    &&& e == MuxError::Engine(EngineError::NotResident) || e == MuxError::Engine(
                        EngineError::NothingPending,
                    )
                },
            },
    {
        proof {
            self.lemma_wf();
        }
        let handle = match self.engine.handle_of(doc) {
            None => {
                return Err(MuxError::Engine(EngineError::NotResident));
            },
            Some(handle) => handle,
        };
        let outcome = self.engine.absorb(&handle, merged);
        proof {
            assert forall|d: Seq<u8>| #[trigger]
                tallied(self.sessions@, self.engine.residents(), d) by {
                assert(tallied(old(self).sessions@, old(self).engine.residents(), d));
            }
            self.lemma_wf();
        }
        match outcome {
            Ok(seq) => Ok(seq),
            Err(e) => Err(MuxError::Engine(e)),
        }
    }

    /// Publishes the presence of an active session: every other session
    /// attached to the same document receives it. Presence is kept with the
    /// session and never stored.
    ///
    /// If the authorization of the session has expired, the session is
    /// closed and nothing is sent.
    pub fn publish_awareness(&mut self, id: u64, data: &Vec<u8>, now: u64) -> (r: Result<
        (),
        MuxError,
    >)
        requires
            old(self).wf(),
        ensures
            final(self).wf(),
            final(self).contents() == old(self).contents(),
            final(self).reliable() == old(self).reliable(),
            final(self).key() == old(self).key(),
            final(self).next_id() == old(self).next_id(),
            final(self).idle_threshold() == old(self).idle_threshold(),
            match r {
                Ok(()) => {
                    let was = old(self).sessions()[id];
                    &&& old(self).sessions().contains_key(id)
                    &&& was.state == SessionState::Active
                    &&& !expired(was.expiry, now)
                    &&& final(self).residents() == old(self).residents()
                    &&& final(self).sessions() == deliver(
                        old(self).sessions().insert(
                            id,
                            SessionView { awareness: Some(data@), awareness_at: now, ..was },
                        ),
                        id,
                        was.doc,
                        FrameView::Awareness(id, data@),
                    )
                },
                Err(e) => {
                    let was = old(self).sessions()[id];
                    &&& e == MuxError::UnknownSession <==> !old(self).sessions().contains_key(id)
                    &&& e == MuxError::WrongState <==> old(self).sessions().contains_key(id)
                        && was.state != SessionState::Active
                    &&& e == MuxError::Unauthorized <==> old(self).sessions().contains_key(id)
                        && was.state == SessionState::Active && expired(was.expiry, now)
                    &&& final(self).sessions() == if e == MuxError::Unauthorized {
                        old(self).sessions().remove(id)
                    } else {
                        old(self).sessions()
                    }
                    &&& final(self).residents() == if e == MuxError::Unauthorized {
                        detaches(old(self).residents(), was.doc, now)
                    } else {
                        old(self).residents()
                    }
                    &&& e == MuxError::UnknownSession || e == MuxError::WrongState || e
                        == MuxError::Unauthorized
                },
            },
    {
        proof {
            self.lemma_wf();
            lemma_sessions_map(self.sessions@);
        }
        let i = match self.find(id) {
            None => {
                return Err(MuxError::UnknownSession);
            },
            Some(i) => i,
        };
        if self.sessions[i].state != SessionState::Active {
            return Err(MuxError::WrongState);
        }
        let lapsed = match self.sessions[i].expiry {
            Some(t) => t < now,
            None => false,
        };
        if lapsed {
            proof {
                lemma_sessions_removed(self.sessions@, i as int);
            }
            self.drop_session(i, now);
            proof {
                self.lemma_wf();
            }
            return Err(MuxError::Unauthorized);
        }
        let doc = self.sessions[i].doc.duplicate();
        let mut session = self.sessions.remove(i);
        session.awareness = Some(copy_bytes(data));
        session.awareness_at = now;
        self.sessions.insert(i, session);
        proof {
            assert(old(self).sessions[i as int].sound());
            lemma_sessions_replaced(old(self).sessions@, self.sessions@, i as int);
            self.lemma_kept(old(self), i as int);
            self.lemma_wf();
        }
        let frame = Frame::Awareness(id, copy_bytes(data));
        self.broadcast(id, &doc, &frame);
        proof {
            self.lemma_wf();
        }
        Ok(())
    }

    /// Removes a document without sessions from memory as it is, as
    /// [`Engine::discard`] does.
    pub fn discard(&mut self, doc: &DocId) -> (r: Result<(), MuxError>)
        requires
            old(self).wf(),
        ensures
            final(self).wf(),
            final(self).sessions() == old(self).sessions(),
            final(self).contents() == old(self).contents(),
            final(self).reliable() == old(self).reliable(),
            final(self).key() == old(self).key(),
            final(self).next_id() == old(self).next_id(),
            final(self).idle_threshold() == old(self).idle_threshold(),
            match r {
                Ok(()) => {
                    &&& old(self).residents().contains_key(doc@)
                    &&& old(self).residents()[doc@].sessions == 0
                    &&& final(self).residents() == old(self).residents().remove(doc@)
                },
                Err(e) => {
                    &&& final(self).residents() == old(self).residents()
                    &&& e == MuxError::Engine(EngineError::NotResident) <==> !old(self).residents().contains_key(doc@)
                    &&& e == MuxError::Engine(EngineError::Busy) <==> old(self).residents().contains_key(doc@) && old(self).residents()[doc@].sessions > 0
                    &&& e == MuxError::Engine(EngineError::NotResident) || e == MuxError::Engine(
                        EngineError::Busy,
                    )
                },
            },
    {
        proof {
            self.lemma_wf();
        }
        let handle = match self.engine.handle_of(doc) {
            None => {
                return Err(MuxError::Engine(EngineError::NotResident));
            },
            Some(handle) => handle,
        };
        let outcome = self.engine.discard(&handle);
        proof {
            assert forall|d: Seq<u8>| #[trigger]
                tallied(self.sessions@, self.engine.residents(), d) by {
                assert(tallied(old(self).sessions@, old(self).engine.residents(), d));
            }
            self.lemma_wf();
        }
        match outcome {
            Ok(()) => Ok(()),
            Err(e) => Err(MuxError::Engine(e)),
        }
    }

    /// Drops the presence of every session that published it `timeout` ago
    /// or earlier, and returns the numbers of those sessions.
    pub fn lapse_awareness(&mut self, now: u64, timeout: u64) -> (lapsed: Vec<u64>)
        requires
            old(self).wf(),
        ensures
            final(self).wf(),
            final(self).residents() == old(self).residents(),
            final(self).contents() == old(self).contents(),
            final(self).reliable() == old(self).reliable(),
            final(self).key() == old(self).key(),
            final(self).next_id() == old(self).next_id(),
            final(self).idle_threshold() == old(self).idle_threshold(),
            final(self).sessions() == lapse(old(self).sessions(), now, timeout),
            forall|k: int|
                0 <= k < lapsed.len() ==> old(self).sessions().contains_key(#[trigger] lapsed[k])
                    && old(self).sessions()[lapsed[k]].stale(now, timeout),
            forall|id: u64| #[trigger]
                old(self).sessions().contains_key(id) && old(self).sessions()[id].stale(now, timeout)
                    ==> exists|k: int| 0 <= k < lapsed.len() && lapsed[k] == id,
            forall|a: int, b: int| 0 <= a < b < lapsed.len() ==> lapsed[a] != lapsed[b],
    {
        proof {
            self.lemma_wf();
            lemma_sessions_map(self.sessions@);
        }
        let n: usize = self.sessions.len();
        let mut lapsed: Vec<u64> = Vec::new();
        let ghost mut origin: Seq<int> = Seq::empty();
        let mut i: usize = 0;
        while i < n
            invariant
                i <= n,
                n == self.sessions.len(),
                n == old(self).sessions.len(),
                self.engine == old(self).engine,
                self.auth == old(self).auth,
                self.next_id == old(self).next_id,
                forall|j: int|
                    0 <= j < n ==> (#[trigger] self.sessions[j]).id == old(self).sessions[j].id
                        && self.sessions[j].state == old(self).sessions[j].state
                        && self.sessions[j].doc@ == old(self).sessions[j].doc@
                        && self.sessions[j].handle == old(self).sessions[j].handle,
                forall|j: int|
                    0 <= j < i ==> (#[trigger] self.sessions[j]).summary() == old(self).sessions[j].summary().lapsed(now, timeout),
                forall|j: int| i <= j < n ==> #[trigger] self.sessions[j] == old(self).sessions[j],
                origin.len() == lapsed.len(),
                forall|k: int|
                    0 <= k < lapsed.len() ==> 0 <= #[trigger] origin[k] < i && lapsed[k] == old(self).sessions[origin[k]].id && old(self).sessions[origin[k]].summary().stale(
                        now,
                        timeout,
                    ),
                forall|a: int, b: int| 0 <= a < b < lapsed.len() ==> origin[a] < origin[b],
                forall|j: int|
                    0 <= j < i && (#[trigger] old(self).sessions[j]).summary().stale(now, timeout)
                        ==> exists|k: int| 0 <= k < lapsed.len() && origin[k] == j,
            decreases n - i,
        {
            let stale = self.sessions[i].awareness.is_some() && now >= timeout
                && self.sessions[i].awareness_at <= now - timeout;
            if stale {
                let ghost before = self.sessions@;
                let ghost gone = origin;
                let mut session = self.sessions.remove(i);
                session.awareness = None;
                lapsed.push(session.id);
                self.sessions.insert(i, session);
                proof {
                    origin = origin.push(i as int);
                    assert forall|j: int| 0 <= j < n && j != i implies self.sessions[j]
                        == before[j] by {}
                    assert(old(self).sessions[i as int].summary().stale(now, timeout));
                    assert forall|j: int|
                        0 <= j < i + 1 && (#[trigger] old(self).sessions[j]).summary().stale(
                            now,
                            timeout,
                        ) implies exists|k: int| 0 <= k < lapsed.len() && origin[k] == j by {
                        if j < i {
                            let k = choose|k: int| 0 <= k < gone.len() && gone[k] == j;
                            assert(origin[k] == j);
                        } else {
                            assert(origin[gone.len() as int] == j);
                        }
                    }
                }
            }
            i = i + 1;
        }
        proof {
            lemma_pointwise(
                old(self).sessions@,
                self.sessions@,
                |id: u64, session: SessionView| session.lapsed(now, timeout),
            );
            assert(self.sessions() =~= lapse(old(self).sessions(), now, timeout));
            assert forall|j: int| 0 <= j < self.sessions.len() implies #[trigger] self.sessions[j].sound()
                && self.sessions[j].id < self.next_id by {
                assert(old(self).sessions[j].sound());
                assert(old(self).sessions[j].id < old(self).next_id);
            }
            assert forall|d: Seq<u8>| #[trigger]
                tallied(self.sessions@, self.engine.residents(), d) by {
                assert(tallied(old(self).sessions@, old(self).engine.residents(), d));
                lemma_attached_same(old(self).sessions@, self.sessions@, d);
            }
            self.lemma_wf();
            assert forall|k: int| 0 <= k < lapsed.len() implies old(self).sessions().contains_key(
                #[trigger] lapsed[k],
            ) && old(self).sessions()[lapsed[k]].stale(now, timeout) by {
                let j = origin[k];
                assert(old(self).sessions()[old(self).sessions[j].id] == old(self).sessions[j].summary());
            }
            assert forall|id: u64| #[trigger]
                old(self).sessions().contains_key(id) && old(self).sessions()[id].stale(
                    now,
                    timeout,
                ) implies exists|k: int| 0 <= k < lapsed.len() && lapsed[k] == id by {
                let p = slot(old(self).sessions@, id);
                assert(old(self).sessions[p].summary().stale(now, timeout));
                let k = choose|k: int| 0 <= k < lapsed.len() && origin[k] == p;
                assert(lapsed[k] == id);
            }
            assert forall|a: int, b: int| 0 <= a < b < lapsed.len() implies lapsed[a]
                != lapsed[b] by {
                assert(origin[a] < origin[b]);
                assert(old(self).sessions[origin[a]].id != old(self).sessions[origin[b]].id);
            }
        }
        lapsed
    }

    /// Saves every resident document that is dirty, as
    /// [`Engine::checkpoint_all`] does, and returns the names of those that
    /// could not be saved.
    pub fn checkpoint_all(&mut self) -> (failed: Vec<DocId>)
        requires
            old(self).wf(),
        ensures
            final(self).wf(),
            final(self).sessions() == old(self).sessions(),
            final(self).reliable() == old(self).reliable(),
            final(self).key() == old(self).key(),
            final(self).next_id() == old(self).next_id(),
            final(self).idle_threshold() == old(self).idle_threshold(),
            forall|d: Seq<u8>| #[trigger]
                final(self).residents().contains_key(d) == old(self).residents().contains_key(d),
            forall|d: Seq<u8>|
                #![trigger old(self).residents().contains_key(d)]
                #![trigger final(self).residents()[d]]
                old(self).residents().contains_key(d) ==> final(self).residents()[d] == (DocView {
                    dirty: final(self).residents()[d].dirty,
                    ..old(self).residents()[d]
                }) && old(self).residents()[d].checkpointed(
                    final(self).residents()[d].dirty,
                    old(self).contents(),
                    final(self).contents(),
                    d,
                ),
            forall|k: int|
                0 <= k < failed.len() ==> final(self).residents().contains_key(
                    #[trigger] failed[k]@,
                ) && final(self).residents()[failed[k]@].dirty,
            forall|d: Seq<u8>|
                #![trigger final(self).residents().contains_key(d)]
                #![trigger final(self).residents()[d]]
                final(self).residents().contains_key(d) && final(self).residents()[d].dirty
                    ==> exists|k: int| 0 <= k < failed.len() && failed[k]@ == d,
            forall|a: int, b: int| 0 <= a < b < failed.len() ==> failed[a]@ != failed[b]@,
            old(self).reliable() ==> failed.len() == 0,
            forall|k: Seq<u8>|
                unowned(old(self).residents(), k) ==> #[trigger] agree_at(
                    old(self).contents(),
                    final(self).contents(),
                    k,
                ),
    {
        proof {
            self.lemma_wf();
        }
        let failed = self.engine.checkpoint_all();
        proof {
            assert forall|d: Seq<u8>| #[trigger]
                tallied(self.sessions@, self.engine.residents(), d) by {
                assert(tallied(old(self).sessions@, old(self).engine.residents(), d));
                assert(self.engine.residents().contains_key(d) == old(self).engine.residents().contains_key(d));
            }
            self.lemma_wf();
            assert forall|d: Seq<u8>| #[trigger]
                self.residents().contains_key(d) && self.residents()[d].dirty implies exists|k: int|
                0 <= k < failed.len() && failed[k]@ == d by {
                assert(self.engine.residents().contains_key(d));
            }
        }
        failed
    }

    /// Evicts every idle document, as [`Engine::sweep_idle`] does, and
    /// returns the names of those evicted.
    pub fn sweep_idle(&mut self, now: u64) -> (evicted: Vec<DocId>)
        requires
            old(self).wf(),
        ensures
            final(self).wf(),
            final(self).sessions() == old(self).sessions(),
            final(self).reliable() == old(self).reliable(),
            final(self).key() == old(self).key(),
            final(self).next_id() == old(self).next_id(),
            final(self).idle_threshold() == old(self).idle_threshold(),
            forall|d: Seq<u8>| #[trigger]
                final(self).residents().contains_key(d) ==> old(self).residents().contains_key(d)
                    && final(self).residents()[d] == old(self).residents()[d],
            forall|d: Seq<u8>| #[trigger]
                final(self).residents().contains_key(d) && old(self).residents()[d].idle(
                    now as nat,
                    old(self).idle_threshold() as nat,
                ) ==> old(self).residents()[d].dirty && !old(self).reliable(),
            forall|d: Seq<u8>|
                old(self).residents().contains_key(d) && !#[trigger] final(self).residents().contains_key(
                    d,
                ) ==> old(self).residents()[d].idle(
                    now as nat,
                    old(self).idle_threshold() as nat,
                ) && cold(final(self).contents(), d, old(self).residents()[d].image()) && (old(self).residents()[d].dirty ==> old(self).residents()[d].saved_in(
                    final(self).contents(),
                    d,
                )),
            forall|d: Seq<u8>|
                old(self).residents().contains_key(d) && !#[trigger] final(self).residents().contains_key(
                    d,
                ) ==> exists|k: int| 0 <= k < evicted.len() && evicted[k]@ == d,
            forall|k: int|
                0 <= k < evicted.len() ==> old(self).residents().contains_key(
                    #[trigger] evicted[k]@,
                ) && !final(self).residents().contains_key(evicted[k]@),
            forall|a: int, b: int| 0 <= a < b < evicted.len() ==> evicted[a]@ != evicted[b]@,
            forall|k: Seq<u8>|
                unowned(old(self).residents(), k) ==> #[trigger] agree_at(
                    old(self).contents(),
                    final(self).contents(),
                    k,
                ),
    {
        proof {
            self.lemma_wf();
        }
        let evicted = self.engine.sweep_idle(now);
        proof {
            assert forall|d: Seq<u8>| #[trigger]
                tallied(self.sessions@, self.engine.residents(), d) by {
                assert(tallied(old(self).sessions@, old(self).engine.residents(), d));
                if old(self).engine.residents().contains_key(d)
                    && !self.engine.residents().contains_key(d) {
                    assert(old(self).engine.residents()[d].sessions == 0);
                }
            }
            self.lemma_wf();
            assert forall|d: Seq<u8>|
                old(self).residents().contains_key(d) && !#[trigger] self.residents().contains_key(
                    d,
                ) implies exists|k: int| 0 <= k < evicted.len() && evicted[k]@ == d by {
                assert(!self.engine.residents().contains_key(d));
            }
            assert forall|d: Seq<u8>| #[trigger]
                self.residents().contains_key(d) && old(self).residents()[d].idle(
                    now as nat,
                    old(self).idle_threshold() as nat,
                ) implies old(self).residents()[d].dirty && !old(self).reliable() by {
                assert(self.engine.residents().contains_key(d));
            }
        }
        evicted
    }

    /// Saves a resident document, as [`Engine::checkpoint`] does.
    pub fn checkpoint(&mut self, doc: &DocId) -> (r: Result<bool, MuxError>)
        requires
            old(self).wf(),
        ensures
            final(self).wf(),
            final(self).sessions() == old(self).sessions(),
            final(self).reliable() == old(self).reliable(),
            final(self).key() == old(self).key(),
            final(self).next_id() == old(self).next_id(),
            final(self).idle_threshold() == old(self).idle_threshold(),
            differ_within(old(self).contents(), final(self).contents(), doc@),
            match r {
                Ok(wrote) => {
                    let was = old(self).residents()[doc@];
                    &&& old(self).residents().contains_key(doc@)
                    &&& wrote == was.dirty
                    &&& !wrote ==> final(self).contents() == old(self).contents()
                    &&& final(self).residents() == old(self).residents().insert(
                        doc@,
                        DocView { dirty: false, ..was },
                    )
                    &&& wrote ==> was.saved_in(final(self).contents(), doc@)
                },
                Err(e) => {
                    let was = old(self).residents()[doc@];
                    &&& final(self).residents() == old(self).residents()
                    &&& e == MuxError::Engine(EngineError::NotResident) <==> !old(self).residents().contains_key(doc@)
                    &&& e == MuxError::Engine(EngineError::NotResident) ==> final(self).contents()
                        == old(self).contents()
                    &&& e matches MuxError::Engine(cause) && (cause == EngineError::NotResident
                        || cause is Store)
                    &&& e matches MuxError::Engine(EngineError::Store(_)) ==> !old(self).reliable()
                        && was.dirty && (final(self).contents() == old(self).contents() || base_of(
                        final(self).contents(),
                        doc@,
                    ) == Some((was.merged_seq, was.state)))
                },
            },
    {
        proof {
            self.lemma_wf();
        }
        let handle = match self.engine.handle_of(doc) {
            None => {
                proof {
                    assert forall|k: Seq<u8>| !crate::keys::owned_by(doc@, k) implies #[trigger] agree_at(
                        self.contents(),
                        self.contents(),
                        k,
                    ) by {}
                }
                return Err(MuxError::Engine(EngineError::NotResident));
            },
            Some(handle) => handle,
        };
        let outcome = self.engine.checkpoint(&handle);
        proof {
            assert forall|d: Seq<u8>| #[trigger]
                tallied(self.sessions@, self.engine.residents(), d) by {
                assert(tallied(old(self).sessions@, old(self).engine.residents(), d));
            }
            self.lemma_wf();
        }
        match outcome {
            Ok(wrote) => {
                proof {
                    if !wrote {
                        assert(old(self).residents().insert(
                            doc@,
                            DocView { dirty: false, ..old(self).residents()[doc@] },
                        ) =~= old(self).residents());
                    }
                }
                Ok(wrote)
            },
            Err(e) => Err(MuxError::Engine(e)),
        }
    }

    /// Removes an idle document from memory, as [`Engine::evict`] does. A
    /// document with a session attached is never idle.
    pub fn evict(&mut self, doc: &DocId, now: u64) -> (r: Result<(), MuxError>)
        requires
            old(self).wf(),
        ensures
            final(self).wf(),
            final(self).sessions() == old(self).sessions(),
            final(self).reliable() == old(self).reliable(),
            final(self).key() == old(self).key(),
            final(self).next_id() == old(self).next_id(),
            final(self).idle_threshold() == old(self).idle_threshold(),
            differ_within(old(self).contents(), final(self).contents(), doc@),
            match r {
                Ok(()) => {
                    let was = old(self).residents()[doc@];
                    &&& old(self).residents().contains_key(doc@)
                    &&& was.idle(now as nat, old(self).idle_threshold() as nat)
                    &&& final(self).residents() == old(self).residents().remove(doc@)
                    &&& cold(final(self).contents(), doc@, was.image())
                    &&& was.dirty ==> was.saved_in(final(self).contents(), doc@)
                    &&& !was.dirty ==> final(self).contents() == old(self).contents()
                },
                Err(e) => {
                    let was = old(self).residents()[doc@];
                    &&& final(self).residents() == old(self).residents()
                    &&& e == MuxError::Engine(EngineError::NotResident) <==> !old(self).residents().contains_key(doc@)
                    &&& e == MuxError::Engine(EngineError::Busy) <==> old(self).residents().contains_key(doc@) && was.sessions > 0
                    &&& e == MuxError::Engine(EngineError::NotIdle) <==> old(self).residents().contains_key(doc@) && was.sessions == 0 && !was.idle(
                        now as nat,
                        old(self).idle_threshold() as nat,
                    )
                    &&& e matches MuxError::Engine(EngineError::Store(_)) ==> was.dirty && !old(self).reliable() && was.idle(now as nat, old(self).idle_threshold() as nat) && (
                    final(self).contents() == old(self).contents() || base_of(
                        final(self).contents(),
                        doc@,
                    ) == Some((was.merged_seq, was.state)))
                    &&& !(e matches MuxError::Engine(EngineError::Store(_))) ==> final(self).contents() == old(self).contents()
                    &&& e matches MuxError::Engine(cause) && (cause == EngineError::NotResident
                        || cause == EngineError::Busy || cause == EngineError::NotIdle
                        || cause is Store)
                },
            },
    {
        proof {
            self.lemma_wf();
        }
        let handle = match self.engine.handle_of(doc) {
            None => {
                proof {
                    assert forall|k: Seq<u8>| !crate::keys::owned_by(doc@, k) implies #[trigger] agree_at(
                        self.contents(),
                        self.contents(),
                        k,
                    ) by {}
                }
                return Err(MuxError::Engine(EngineError::NotResident));
            },
            Some(handle) => handle,
        };
        let outcome = self.engine.evict(&handle, now);
        proof {
            assert forall|d: Seq<u8>| #[trigger]
                tallied(self.sessions@, self.engine.residents(), d) by {
                assert(tallied(old(self).sessions@, old(self).engine.residents(), d));
            }
            self.lemma_wf();
        }
        match outcome {
            Ok(()) => Ok(()),
            Err(e) => Err(MuxError::Engine(e)),
        }
    }

    /// Replacing one session by one that is attached to the same documents
    /// keeps the multiplexer consistent.
    proof fn lemma_kept(&self, before: &Multiplexer<S>, at: int)
        requires
            before.inner_wf(),
            0 <= at < before.sessions.len(),
            self.sessions.len() == before.sessions.len(),
            self.sessions[at].id == before.sessions[at].id,
            forall|i: int| 0 <= i < before.sessions.len() && i != at ==> self.sessions[i]
                == before.sessions[i],
            self.sessions[at].sound(),
            forall|doc: Seq<u8>|
                self.sessions[at].summary().attached_to(doc)
                    == before.sessions[at].summary().attached_to(doc),
            self.engine == before.engine,
            self.next_id == before.next_id,
        ensures
            self.inner_wf(),
            self.wf(),
    {
        lemma_sessions_replaced(before.sessions@, self.sessions@, at);
        assert forall|i: int| 0 <= i < self.sessions.len() implies #[trigger] self.sessions[i].sound()
            && self.sessions[i].id < self.next_id by {
            assert(before.sessions[i].sound());
            assert(before.sessions[i].id < before.next_id);
        }
        assert forall|d: Seq<u8>| #[trigger]
            tallied(self.sessions@, self.engine.residents(), d) by {
            assert(tallied(before.sessions@, before.engine.residents(), d));
            assert(attached(self.sessions@, d) == attached(before.sessions@, d) - one_if(
                before.sessions[at].summary().attached_to(d),
            ) + one_if(self.sessions[at].summary().attached_to(d)));
        }
        self.lemma_wf();
    }
}

} // verus!

