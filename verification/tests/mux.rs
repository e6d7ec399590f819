use y_sweet_server::auth::Authenticator;
use y_sweet_server::engine::EngineError;
use y_sweet_server::keys::{snapshot_key_of, DocId};
use y_sweet_server::mux::{AuthMode, Frame, Multiplexer, MuxError, SessionState};
use y_sweet_server::store::{MemoryStore, Store, StoreError};
use yrs::updates::decoder::Decode;
use yrs::{Doc, GetString, Text, Transact, Update};

fn updates_of(client: u64, chunks: &[&str]) -> Vec<Vec<u8>> {
    let doc = Doc::with_client_id(client);
    let text = doc.get_or_insert_text("t");
    let mut updates = Vec::new();
    for chunk in chunks {
        let mut txn = doc.transact_mut();
        text.push(&mut txn, chunk);
        updates.push(txn.encode_update_v1());
    }
    updates
}

/// What the document library makes of a state and an update.
fn merge(state: &[u8], update: &[u8]) -> Option<Vec<u8>> {
    if state.is_empty() {
        yrs::merge_updates_v1([update]).ok()
    } else {
        yrs::merge_updates_v1([state, update]).ok()
    }
}

/// Merges an update into the document and submits both for the session.
fn submit(
    mux: &mut Multiplexer<MemoryStore>,
    id: u64,
    doc: &str,
    update: &Vec<u8>,
    now: u64,
) -> Result<u64, MuxError> {
    let state = match mux.engine().handle_of(&DocId::new(doc)) {
        Some(handle) => mux.engine().state(&handle).unwrap_or_default(),
        None => Vec::new(),
    };
    let merged = merge(&state, update).unwrap();
    mux.submit_update(id, update, merged, now)
}

fn text_in(state: &[u8]) -> String {
    let doc = Doc::new();
    let text = doc.get_or_insert_text("t");
    if !state.is_empty() {
        let mut txn = doc.transact_mut();
        txn.apply_update(Update::decode_v1(state).unwrap()).unwrap();
    }
    let txn = doc.transact();
    text.get_string(&txn)
}

fn open_mux() -> Multiplexer<MemoryStore> {
    Multiplexer::new(MemoryStore::new(), 1_000, AuthMode::Disabled)
}

fn signing() -> Authenticator {
    Authenticator::new(&b"6b6579206d6174657269616c".to_vec()).unwrap()
}

fn guarded_mux() -> Multiplexer<MemoryStore> {
    Multiplexer::new(MemoryStore::new(), 1_000, AuthMode::Required(signing()))
}

/// Opens, authorizes and attaches a session.
fn enter(mux: &mut Multiplexer<MemoryStore>, doc: &str, now: u64) -> u64 {
    let id = mux.connect(&DocId::new(doc)).unwrap();
    mux.authorize(id, None, now).unwrap();
    mux.attach(id, now).unwrap();
    id
}

fn update_frames(frames: Vec<Frame>) -> Vec<Vec<u8>> {
    frames
        .into_iter()
        .map(|frame| match frame {
            Frame::Update(bytes) => bytes,
            other => panic!("unexpected {:?}", other),
        })
        .collect()
}

fn sessions_on(mux: &Multiplexer<MemoryStore>, doc: &str) -> Option<usize> {
    let handle = mux.engine().handle_of(&DocId::new(doc))?;
    mux.engine().session_count(&handle)
}

#[test]
fn session_goes_through_its_states() {
    let mut mux = open_mux();
    assert_eq!(mux.state_of(0), SessionState::Closed);
    let id = mux.connect(&DocId::new("doc")).unwrap();
    assert_eq!(id, 0);
    assert_eq!(mux.state_of(id), SessionState::Connecting);
    assert_eq!(mux.authorize(id, None, 1), Ok(()));
    assert_eq!(mux.state_of(id), SessionState::Authorized);
    assert_eq!(sessions_on(&mux, "doc"), None);
    assert_eq!(mux.attach(id, 2), Ok(()));
    assert_eq!(mux.state_of(id), SessionState::Active);
    assert_eq!(sessions_on(&mux, "doc"), Some(1));
    assert_eq!(mux.close(id, 3), Ok(()));
    assert_eq!(mux.state_of(id), SessionState::Closed);
    // the document stays resident without sessions
    assert_eq!(sessions_on(&mux, "doc"), Some(0));
    assert_eq!(mux.close(id, 4), Err(MuxError::UnknownSession));
    // numbers are not reused
    assert_eq!(mux.connect(&DocId::new("doc")), Ok(1));
}

#[test]
fn operations_out_of_state_are_refused() {
    let mut mux = open_mux();
    let update = updates_of(1, &["a"]).remove(0);
    let id = mux.connect(&DocId::new("doc")).unwrap();
    // connecting: only authorization is accepted
    assert_eq!(mux.attach(id, 1), Err(MuxError::WrongState));
    assert_eq!(submit(&mut mux, id, "doc", &update, 1), Err(MuxError::WrongState));
    assert_eq!(mux.publish_awareness(id, &vec![1], 1), Err(MuxError::WrongState));
    assert_eq!(mux.state_of(id), SessionState::Connecting);
    mux.authorize(id, None, 1).unwrap();
    assert_eq!(mux.authorize(id, None, 1), Err(MuxError::WrongState));
    assert_eq!(submit(&mut mux, id, "doc", &update, 1), Err(MuxError::WrongState));
    mux.attach(id, 1).unwrap();
    assert_eq!(mux.authorize(id, None, 1), Err(MuxError::WrongState));
    assert_eq!(mux.attach(id, 1), Err(MuxError::WrongState));
    assert_eq!(mux.state_of(id), SessionState::Active);
    assert_eq!(sessions_on(&mux, "doc"), Some(1));
    // unknown sessions
    assert_eq!(mux.authorize(9, None, 1), Err(MuxError::UnknownSession));
    assert_eq!(mux.attach(9, 1), Err(MuxError::UnknownSession));
    assert_eq!(submit(&mut mux, 9, "doc", &update, 1), Err(MuxError::UnknownSession));
    assert_eq!(mux.publish_awareness(9, &vec![1], 1), Err(MuxError::UnknownSession));
    assert!(matches!(mux.drain(9), Err(MuxError::UnknownSession)));
}

#[test]
fn admission_needs_a_token_for_the_document() {
    let auth = signing();
    let mut mux = guarded_mux();
    let doc = DocId::new("doc-A");

    let id = mux.connect(&doc).unwrap();
    assert_eq!(mux.authorize(id, None, 1), Err(MuxError::Unauthorized));
    assert_eq!(mux.state_of(id), SessionState::Closed);

    let id = mux.connect(&doc).unwrap();
    let other = auth.document_token(&DocId::new("doc-B"), None);
    assert_eq!(mux.authorize(id, Some(&other), 1), Err(MuxError::Unauthorized));
    assert_eq!(mux.state_of(id), SessionState::Closed);

    let id = mux.connect(&doc).unwrap();
    let late = auth.document_token(&doc, Some(10));
    assert_eq!(mux.authorize(id, Some(&late), 11), Err(MuxError::Unauthorized));
    assert_eq!(mux.state_of(id), SessionState::Closed);

    let id = mux.connect(&doc).unwrap();
    let forged = Authenticator::gen_key().unwrap().document_token(&doc, None);
    assert_eq!(mux.authorize(id, Some(&forged), 1), Err(MuxError::Unauthorized));

    let id = mux.connect(&doc).unwrap();
    assert_eq!(mux.authorize(id, Some(&b"garbage".to_vec()), 1), Err(MuxError::Unauthorized));

    // nothing was loaded for the sessions that were refused
    assert_eq!(sessions_on(&mux, "doc-A"), None);

    let id = mux.connect(&doc).unwrap();
    let good = auth.document_token(&doc, Some(10));
    assert_eq!(mux.authorize(id, Some(&good), 10), Ok(()));
    assert_eq!(mux.attach(id, 10), Ok(()));

    let id = mux.connect(&doc).unwrap();
    assert_eq!(mux.authorize(id, Some(&auth.server_token()), 1), Ok(()));
    assert_eq!(mux.attach(id, 10), Ok(()));
    assert_eq!(sessions_on(&mux, "doc-A"), Some(2));
}

#[test]
fn update_reaches_every_other_session_of_the_document() {
    let mut mux = open_mux();
    let a = enter(&mut mux, "doc", 1);
    let b = enter(&mut mux, "doc", 1);
    let c = enter(&mut mux, "doc", 1);
    let elsewhere = enter(&mut mux, "other", 1);
    let waiting = mux.connect(&DocId::new("doc")).unwrap();
    let updates = updates_of(1, &["ab", "cd"]);
    assert_eq!(submit(&mut mux, a, "doc", &updates[0], 2), Ok(1));
    assert_eq!(submit(&mut mux, b, "doc", &updates[1], 3), Ok(2));
    assert_eq!(update_frames(mux.drain(a).unwrap()), vec![updates[1].clone()]);
    assert_eq!(update_frames(mux.drain(b).unwrap()), vec![updates[0].clone()]);
    assert_eq!(update_frames(mux.drain(c).unwrap()), updates);
    assert!(mux.drain(elsewhere).unwrap().is_empty());
    assert!(mux.drain(waiting).unwrap().is_empty());
    // drained frames are gone
    assert!(mux.drain(c).unwrap().is_empty());
    let handle = mux.engine().handle_of(&DocId::new("doc")).unwrap();
    assert_eq!(text_in(&mux.engine().state(&handle).unwrap()), "abcd");
    assert_eq!(mux.engine().last_seq(&handle), Some(2));
}

#[test]
fn update_for_a_lagging_document_reaches_nobody() {
    let logged = updates_of(1, &["ab", "cd"]);
    let doc = DocId::new("doc");
    let mut store = MemoryStore::new();
    store.put(&y_sweet_server::keys::update_key_of(&doc, 1), &logged[0]).unwrap();
    let mut mux = Multiplexer::new(store, 1_000, AuthMode::Disabled);
    let a = enter(&mut mux, "doc", 1);
    let b = enter(&mut mux, "doc", 1);
    assert_eq!(
        mux.submit_update(a, &logged[1], vec![1], 2),
        Err(MuxError::Engine(EngineError::Lagging))
    );
    assert!(mux.drain(b).unwrap().is_empty());
    assert_eq!(mux.state_of(a), SessionState::Active);
    assert_eq!(mux.engine().store().len(), 1);
    // once the logged update is merged, updates are taken again
    let merged = merge(&[], &logged[0]).unwrap();
    assert_eq!(mux.absorb(&doc, merged), Ok(1));
    assert_eq!(mux.absorb(&doc, vec![]), Err(MuxError::Engine(EngineError::NothingPending)));
    assert_eq!(
        mux.absorb(&DocId::new("other"), vec![]),
        Err(MuxError::Engine(EngineError::NotResident))
    );
    assert_eq!(submit(&mut mux, a, "doc", &logged[1], 3), Ok(2));
    assert_eq!(update_frames(mux.drain(b).unwrap()), vec![logged[1].clone()]);
    let handle = mux.engine().handle_of(&doc).unwrap();
    assert_eq!(text_in(&mux.engine().state(&handle).unwrap()), "abcd");
}

#[test]
fn update_that_cannot_be_logged_reaches_nobody() {
    let mut store = MemoryStore::new();
    store.fail_after(1);
    let mut mux = Multiplexer::new(store, 1_000, AuthMode::Disabled);
    let a = enter(&mut mux, "doc", 1);
    let b = enter(&mut mux, "doc", 1);
    let updates = updates_of(1, &["ab", "cd"]);
    assert_eq!(submit(&mut mux, a, "doc", &updates[0], 2), Ok(1));
    assert_eq!(
        submit(&mut mux, a, "doc", &updates[1], 3),
        Err(MuxError::Engine(EngineError::Store(StoreError::Transient)))
    );
    assert_eq!(update_frames(mux.drain(b).unwrap()), vec![updates[0].clone()]);
}

#[test]
fn many_sessions_many_updates() {
    let sessions = 4usize;
    let each = 5usize;
    let mut mux = open_mux();
    let ids: Vec<u64> = (0..sessions).map(|_| enter(&mut mux, "doc", 0)).collect();
    let chunks: Vec<String> = (0..each).map(|m| format!("<{}>", m)).collect();
    let chunk_refs: Vec<&str> = chunks.iter().map(|c| c.as_str()).collect();
    let updates: Vec<Vec<Vec<u8>>> =
        (0..sessions).map(|n| updates_of(100 + n as u64, &chunk_refs)).collect();
    // the sessions take turns, which is one of the orders the lock can give
    let mut accepted: Vec<(u64, Vec<u8>)> = Vec::new();
    for m in 0..each {
        for n in 0..sessions {
            let seq = submit(&mut mux, ids[n], "doc", &updates[n][m], 1).unwrap();
            assert_eq!(seq as usize, accepted.len() + 1);
            accepted.push((ids[n], updates[n][m].clone()));
        }
    }
    for id in &ids {
        let heard = update_frames(mux.drain(*id).unwrap());
        let expected: Vec<Vec<u8>> = accepted
            .iter()
            .filter(|(from, _)| from != id)
            .map(|(_, update)| update.clone())
            .collect();
        assert_eq!(heard.len(), (sessions - 1) * each);
        assert_eq!(heard, expected);
    }
    let doc = DocId::new("doc");
    let handle = mux.engine().handle_of(&doc).unwrap();
    assert_eq!(mux.engine().last_seq(&handle), Some((sessions * each) as u64));
    assert_eq!(mux.engine().store().len(), sessions * each);
    let state = mux.engine().state(&handle).unwrap();
    let text = text_in(&state);
    for chunk in &chunks {
        assert_eq!(text.matches(chunk.as_str()).count(), sessions);
    }
    assert_eq!(mux.checkpoint(&doc), Ok(true));
    assert_eq!(mux.engine().store().len(), 1);
    let stored = mux.engine().store().get(&snapshot_key_of(&doc)).unwrap().unwrap();
    assert_eq!(stored[20..].to_vec(), state);
}

#[test]
fn awareness_is_sent_and_never_stored() {
    let mut mux = open_mux();
    let a = enter(&mut mux, "doc", 1);
    let b = enter(&mut mux, "doc", 1);
    let elsewhere = enter(&mut mux, "other", 1);
    assert_eq!(mux.publish_awareness(a, &vec![7, 8], 2), Ok(()));
    let frames = mux.drain(b).unwrap();
    assert_eq!(frames.len(), 1);
    assert!(matches!(&frames[0], Frame::Awareness(from, data) if *from == a && data == &vec![7, 8]));
    assert!(mux.drain(a).unwrap().is_empty());
    assert!(mux.drain(elsewhere).unwrap().is_empty());
    assert_eq!(mux.engine().store().len(), 0);
    let handle = mux.engine().handle_of(&DocId::new("doc")).unwrap();
    assert_eq!(mux.engine().is_dirty(&handle), Some(false));
    assert_eq!(mux.engine().last_seq(&handle), Some(0));
}

#[test]
fn updates_and_awareness_keep_their_order() {
    let mut mux = open_mux();
    let a = enter(&mut mux, "doc", 1);
    let b = enter(&mut mux, "doc", 1);
    let updates = updates_of(1, &["ab", "cd"]);
    submit(&mut mux, a, "doc", &updates[0], 2).unwrap();
    mux.publish_awareness(a, &vec![1], 3).unwrap();
    submit(&mut mux, a, "doc", &updates[1], 4).unwrap();
    let frames = mux.drain(b).unwrap();
    assert_eq!(frames.len(), 3);
    assert!(matches!(&frames[0], Frame::Update(u) if u == &updates[0]));
    assert!(matches!(&frames[1], Frame::Awareness(_, d) if d == &vec![1]));
    assert!(matches!(&frames[2], Frame::Update(u) if u == &updates[1]));
    assert!(matches!(frames[0].duplicate(), Frame::Update(u) if u == updates[0]));
}

#[test]
fn expired_session_is_closed_at_its_next_submission() {
    let auth = signing();
    let mut mux = guarded_mux();
    let doc = DocId::new("doc");
    let token = auth.document_token(&doc, Some(100));
    let a = mux.connect(&doc).unwrap();
    mux.authorize(a, Some(&token), 50).unwrap();
    mux.attach(a, 50).unwrap();
    let b = mux.connect(&doc).unwrap();
    mux.authorize(b, Some(&auth.server_token()), 50).unwrap();
    mux.attach(b, 50).unwrap();
    let updates = updates_of(1, &["ab", "cd"]);
    assert_eq!(submit(&mut mux, a, "doc", &updates[0], 100), Ok(1));
    assert_eq!(submit(&mut mux, a, "doc", &updates[1], 101), Err(MuxError::Unauthorized));
    assert_eq!(mux.state_of(a), SessionState::Closed);
    assert_eq!(sessions_on(&mux, "doc"), Some(1));
    assert_eq!(update_frames(mux.drain(b).unwrap()), vec![updates[0].clone()]);
    assert_eq!(mux.engine().store().len(), 1);

    let c = mux.connect(&doc).unwrap();
    mux.authorize(c, Some(&auth.document_token(&doc, Some(200))), 150).unwrap();
    mux.attach(c, 150).unwrap();
    assert_eq!(mux.publish_awareness(c, &vec![1], 201), Err(MuxError::Unauthorized));
    assert_eq!(mux.state_of(c), SessionState::Closed);
    assert!(mux.drain(b).unwrap().is_empty());
}

#[test]
fn document_that_cannot_be_loaded_closes_the_session() {
    let doc = DocId::new("doc");
    let mut store = MemoryStore::new();
    store.put(&snapshot_key_of(&doc), &b"corrupt".to_vec()).unwrap();
    let mut mux = Multiplexer::new(store, 1_000, AuthMode::Disabled);
    let id = mux.connect(&doc).unwrap();
    mux.authorize(id, None, 1).unwrap();
    assert_eq!(mux.attach(id, 1), Err(MuxError::Engine(EngineError::DocLoad)));
    assert_eq!(mux.state_of(id), SessionState::Closed);
    // other documents are served
    let other = enter(&mut mux, "other", 1);
    assert_eq!(mux.state_of(other), SessionState::Active);
}

#[test]
fn idle_document_is_evicted_and_comes_back() {
    let mut mux = open_mux();
    let a = enter(&mut mux, "doc", 0);
    let updates = updates_of(1, &["ab", "cd"]);
    submit(&mut mux, a, "doc", &updates[0], 1).unwrap();
    submit(&mut mux, a, "doc", &updates[1], 2).unwrap();
    let doc = DocId::new("doc");
    let handle = mux.engine().handle_of(&doc).unwrap();
    let state = mux.engine().state(&handle).unwrap();
    assert_eq!(mux.evict(&doc, 10_000), Err(MuxError::Engine(EngineError::Busy)));
    mux.close(a, 10).unwrap();
    assert_eq!(mux.evict(&doc, 1_009), Err(MuxError::Engine(EngineError::NotIdle)));
    assert_eq!(mux.evict(&doc, 1_010), Ok(()));
    assert_eq!(mux.evict(&doc, 1_011), Err(MuxError::Engine(EngineError::NotResident)));
    assert!(!mux.engine().is_resident(&doc));
    let b = enter(&mut mux, "doc", 2_000);
    assert_eq!(mux.state_of(b), SessionState::Active);
    let handle = mux.engine().handle_of(&doc).unwrap();
    assert_eq!(mux.engine().state(&handle), Some(state));
    assert_eq!(mux.engine().last_seq(&handle), Some(2));
}

#[test]
fn checkpoint_through_the_multiplexer() {
    let mut mux = open_mux();
    let doc = DocId::new("doc");
    assert_eq!(mux.checkpoint(&doc), Err(MuxError::Engine(EngineError::NotResident)));
    let a = enter(&mut mux, "doc", 0);
    assert_eq!(mux.checkpoint(&doc), Ok(false));
    submit(&mut mux, a, "doc", &updates_of(1, &["ab"])[0], 1).unwrap();
    assert_eq!(mux.checkpoint(&doc), Ok(true));
    assert_eq!(mux.checkpoint(&doc), Ok(false));
    let engine = mux.into_engine();
    assert_eq!(engine.store().len(), 1);
}

#[test]
fn stale_awareness_is_dropped() {
    let mut mux = open_mux();
    let a = enter(&mut mux, "doc", 0);
    let b = enter(&mut mux, "doc", 0);
    let c = enter(&mut mux, "doc", 0);
    mux.publish_awareness(a, &vec![1], 100).unwrap();
    mux.publish_awareness(b, &vec![2], 200).unwrap();
    assert!(mux.lapse_awareness(129, 30).is_empty());
    assert_eq!(mux.lapse_awareness(130, 30), vec![a]);
    assert!(mux.lapse_awareness(130, 30).is_empty());
    assert!(mux.lapse_awareness(10, 30).is_empty());
    assert_eq!(mux.lapse_awareness(1_000, 30), vec![b]);
    assert!(mux.lapse_awareness(1_000, 0).is_empty());
    // publishing again starts the time anew
    mux.publish_awareness(a, &vec![3], 2_000).unwrap();
    assert!(mux.lapse_awareness(2_010, 30).is_empty());
    assert_eq!(mux.lapse_awareness(2_030, 30), vec![a]);
    assert_eq!(mux.state_of(c), SessionState::Active);
}

#[test]
fn periodic_checkpoint_and_sweep() {
    let mut mux = open_mux();
    let a = enter(&mut mux, "a", 0);
    let b = enter(&mut mux, "b", 0);
    submit(&mut mux, a, "a", &updates_of(1, &["x"])[0], 1).unwrap();
    submit(&mut mux, b, "b", &updates_of(2, &["y"])[0], 1).unwrap();
    assert!(mux.checkpoint_all().is_empty());
    assert_eq!(mux.engine().store().len(), 2);
    assert!(mux.sweep_idle(1_000_000).is_empty());
    mux.close(a, 10).unwrap();
    let evicted = mux.sweep_idle(1_010);
    assert_eq!(evicted.len(), 1);
    assert!(evicted[0].same(&DocId::new("a")));
    assert_eq!(sessions_on(&mux, "a"), None);
    assert_eq!(sessions_on(&mux, "b"), Some(1));
    let back = enter(&mut mux, "a", 2_000);
    submit(&mut mux, back, "a", &updates_of(3, &["z"])[0], 2_001).unwrap();
    let handle = mux.engine().handle_of(&DocId::new("a")).unwrap();
    assert_eq!(mux.engine().last_seq(&handle), Some(2));
    let text = text_in(&mux.engine().state(&handle).unwrap());
    assert!(text.contains('x') && text.contains('z'));
}

#[test]
fn joining_is_admission_and_attachment_in_one() {
    let auth = signing();
    let mut mux = guarded_mux();
    let doc = DocId::new("doc");
    let id = mux.join(&doc, Some(&auth.document_token(&doc, Some(50))), 10).unwrap();
    assert_eq!(id, 0);
    assert_eq!(mux.state_of(id), SessionState::Active);
    assert_eq!(sessions_on(&mux, "doc"), Some(1));
    let other = mux.join(&doc, Some(&auth.server_token()), 10).unwrap();
    assert_eq!(other, 1);
    assert_eq!(sessions_on(&mux, "doc"), Some(2));
    let update = updates_of(1, &["ab"]).remove(0);
    assert_eq!(submit(&mut mux, id, "doc", &update, 20), Ok(1));
    assert_eq!(update_frames(mux.drain(other).unwrap()), vec![update.clone()]);
    // the expiry of the token goes with the session
    assert_eq!(submit(&mut mux, id, "doc", &update, 51), Err(MuxError::Unauthorized));
}

#[test]
fn refused_client_leaves_no_trace() {
    let auth = signing();
    let mut mux = guarded_mux();
    let doc = DocId::new("doc");
    assert_eq!(mux.join(&doc, None, 1), Err(MuxError::Unauthorized));
    assert_eq!(
        mux.join(&doc, Some(&auth.document_token(&DocId::new("other"), None)), 1),
        Err(MuxError::Unauthorized)
    );
    assert_eq!(
        mux.join(&doc, Some(&auth.document_token(&doc, Some(0))), 1),
        Err(MuxError::Unauthorized)
    );
    assert_eq!(sessions_on(&mux, "doc"), None);
    assert_eq!(mux.engine().resident_count(), 0);
    // no number was used up
    assert_eq!(mux.join(&doc, Some(&auth.server_token()), 1), Ok(0));
}

#[test]
fn join_surfaces_a_document_that_cannot_be_loaded() {
    let doc = DocId::new("doc");
    let mut store = MemoryStore::new();
    store.put(&snapshot_key_of(&doc), &b"corrupt".to_vec()).unwrap();
    let mut mux = Multiplexer::new(store, 1_000, AuthMode::Disabled);
    assert_eq!(mux.join(&doc, None, 1), Err(MuxError::Engine(EngineError::DocLoad)));
    assert_eq!(mux.state_of(0), SessionState::Closed);
    assert_eq!(mux.join(&DocId::new("fine"), None, 1), Ok(0));
}

#[test]
fn discard_through_the_multiplexer() {
    let doc = DocId::new("doc");
    let mut store = MemoryStore::new();
    store.put(&y_sweet_server::keys::update_key_of(&doc, 1), &vec![0xff]).unwrap();
    let mut mux = Multiplexer::new(store, 1_000, AuthMode::Disabled);
    let a = enter(&mut mux, "doc", 1);
    assert_eq!(mux.discard(&doc), Err(MuxError::Engine(EngineError::Busy)));
    mux.close(a, 2).unwrap();
    assert_eq!(mux.discard(&doc), Ok(()));
    assert_eq!(mux.discard(&doc), Err(MuxError::Engine(EngineError::NotResident)));
    assert!(!mux.engine().is_resident(&doc));
    assert_eq!(mux.engine().store().len(), 1);
}
