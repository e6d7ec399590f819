use y_sweet_server::engine::{Engine, EngineError, Handle};
use y_sweet_server::keys::{encode_snapshot, snapshot_key_of, update_key_of, DocId};
use y_sweet_server::store::{MemoryStore, Store, StoreError};
use yrs::updates::decoder::Decode;
use yrs::{Doc, GetString, Text, Transact, Update};

/// The updates that one client makes by appending `chunks` to a text.
fn appended(client: u64, chunks: &[&str]) -> Vec<Vec<u8>> {
    let doc = Doc::with_client_id(client);
    let text = doc.get_or_insert_text("t");
    let mut updates = Vec::new();
    for chunk in chunks {
        let mut txn = doc.transact_mut();
        text.push(&mut txn, chunk);
        updates.push(txn.encode_update_v1());
    }
    updates
}

/// The text that a document state holds.
fn text_of(state: &[u8]) -> String {
    let doc = Doc::new();
    let text = doc.get_or_insert_text("t");
    if !state.is_empty() {
        let mut txn = doc.transact_mut();
        txn.apply_update(Update::decode_v1(state).unwrap()).unwrap();
    }
    let txn = doc.transact();
    text.get_string(&txn)
}

/// What the document library makes of a state and an update.
fn merge(state: &[u8], update: &[u8]) -> Option<Vec<u8>> {
    if state.is_empty() {
        yrs::merge_updates_v1([update]).ok()
    } else {
        yrs::merge_updates_v1([state, update]).ok()
    }
}

/// Merges an update into the document and hands both to the engine.
fn apply(
    engine: &mut Engine<MemoryStore>,
    handle: &Handle,
    update: &Vec<u8>,
    now: u64,
) -> Result<u64, EngineError> {
    let state = engine.state(handle).unwrap_or_default();
    let merged = merge(&state, update).unwrap();
    engine.apply_update(handle, update, merged, now)
}

/// Merges what the document has pending, oldest first.
fn catch_up(engine: &mut Engine<MemoryStore>, handle: &Handle) -> usize {
    let mut absorbed = 0;
    while let Some(update) = engine.next_pending(handle) {
        let state = engine.state(handle).unwrap();
        engine.absorb(handle, merge(&state, &update).unwrap()).unwrap();
        absorbed += 1;
    }
    absorbed
}

fn engine_with(updates: &[Vec<u8>]) -> (Engine<MemoryStore>, Handle) {
    let mut engine = Engine::new(MemoryStore::new(), 1_000);
    let handle = engine.load(&DocId::new("doc"), 0).unwrap();
    for (i, update) in updates.iter().enumerate() {
        assert_eq!(apply(&mut engine, &handle, update, 10 + i as u64), Ok(i as u64 + 1));
    }
    (engine, handle)
}

fn reloaded(store: MemoryStore) -> (Engine<MemoryStore>, Handle) {
    let mut engine = Engine::new(store, 1_000);
    let handle = engine.load(&DocId::new("doc"), 0).unwrap();
    (engine, handle)
}

#[test]
fn fresh_document_is_empty() {
    let mut engine = Engine::new(MemoryStore::new(), 1_000);
    let doc = DocId::new("doc");
    assert!(!engine.is_resident(&doc));
    let handle = engine.load(&doc, 5).unwrap();
    assert!(handle.doc_id().same(&doc));
    assert!(engine.is_resident(&doc));
    assert_eq!(engine.resident_count(), 1);
    assert_eq!(engine.state(&handle), Some(vec![]));
    assert_eq!(engine.last_seq(&handle), Some(0));
    assert_eq!(engine.is_dirty(&handle), Some(false));
    assert_eq!(engine.session_count(&handle), Some(1));
    assert_eq!(engine.store().len(), 0);
}

#[test]
fn load_of_a_resident_document_adds_a_session() {
    let (mut engine, handle) = engine_with(&appended(1, &["x"]));
    let again = engine.load(&DocId::new("doc"), 50).unwrap();
    assert_eq!(engine.session_count(&handle), Some(2));
    assert_eq!(engine.session_count(&again), Some(2));
    assert_eq!(engine.resident_count(), 1);
    assert_eq!(engine.is_dirty(&handle), Some(true));
    assert_eq!(engine.last_seq(&handle), Some(1));
}

#[test]
fn update_is_logged_before_it_counts() {
    let updates = appended(1, &["ab", "cd"]);
    let (engine, handle) = engine_with(&updates);
    assert_eq!(engine.last_seq(&handle), Some(2));
    assert_eq!(engine.is_dirty(&handle), Some(true));
    assert_eq!(text_of(&engine.state(&handle).unwrap()), "abcd");
    let doc = DocId::new("doc");
    assert_eq!(engine.store().get(&update_key_of(&doc, 1)), Ok(Some(updates[0].clone())));
    assert_eq!(engine.store().get(&update_key_of(&doc, 2)), Ok(Some(updates[1].clone())));
    assert_eq!(engine.store().get(&snapshot_key_of(&doc)), Ok(None));
    assert_eq!(engine.store().len(), 2);
}

#[test]
fn update_that_cannot_be_logged_is_not_merged() {
    let updates = appended(1, &["ab", "cd"]);
    let mut store = MemoryStore::new();
    store.fail_after(1);
    let mut engine = Engine::new(store, 1_000);
    let handle = engine.load(&DocId::new("doc"), 0).unwrap();
    assert_eq!(apply(&mut engine, &handle, &updates[0], 1), Ok(1));
    let before = engine.state(&handle);
    assert_eq!(
        apply(&mut engine, &handle, &updates[1], 2),
        Err(EngineError::Store(StoreError::Transient))
    );
    assert_eq!(engine.state(&handle), before);
    assert_eq!(engine.last_seq(&handle), Some(1));
    let mut store = engine.into_store();
    store.heal();
    assert_eq!(store.len(), 1);
}

#[test]
fn checkpoint_writes_snapshot_and_empties_the_log() {
    let updates = appended(1, &["ab", "cd", "ef"]);
    let (mut engine, handle) = engine_with(&updates);
    let state = engine.state(&handle).unwrap();
    assert_eq!(engine.checkpoint(&handle), Ok(true));
    assert_eq!(engine.is_dirty(&handle), Some(false));
    assert_eq!(engine.state(&handle), Some(state.clone()));
    assert_eq!(engine.last_seq(&handle), Some(3));
    let doc = DocId::new("doc");
    assert_eq!(engine.store().len(), 1);
    assert_eq!(engine.store().get(&snapshot_key_of(&doc)), Ok(Some(encode_snapshot(3, &state))));
    // nothing to do the second time
    assert_eq!(engine.checkpoint(&handle), Ok(false));
    assert_eq!(engine.store().len(), 1);
}

#[test]
fn checkpoint_then_cold_load_round_trip() {
    let updates = appended(1, &["ab", "cd", "ef"]);
    let (mut engine, handle) = engine_with(&updates);
    let state = engine.state(&handle).unwrap();
    assert_eq!(engine.checkpoint(&handle), Ok(true));
    let (engine, handle) = reloaded(engine.into_store());
    assert_eq!(engine.state(&handle), Some(state.clone()));
    assert_eq!(text_of(&state), "abcdef");
    assert_eq!(engine.last_seq(&handle), Some(3));
    assert_eq!(engine.is_dirty(&handle), Some(false));
    assert_eq!(engine.session_count(&handle), Some(1));
}

#[test]
fn crash_in_the_middle_of_deleting_the_log() {
    let updates = appended(1, &["ab", "cd", "ef"]);
    let mut store = MemoryStore::new();
    // three log writes, the snapshot write and one delete succeed
    store.fail_after(5);
    let mut engine = Engine::new(store, 1_000);
    let handle = engine.load(&DocId::new("doc"), 0).unwrap();
    for update in &updates {
        apply(&mut engine, &handle, update, 1).unwrap();
    }
    let state = engine.state(&handle).unwrap();
    assert_eq!(engine.checkpoint(&handle), Err(EngineError::Store(StoreError::Transient)));
    let mut store = engine.into_store();
    store.heal();
    assert_eq!(store.len(), 3);
    let doc = DocId::new("doc");
    assert_eq!(store.get(&update_key_of(&doc, 1)), Ok(None));
    let (engine, handle) = reloaded(store);
    assert_eq!(engine.state(&handle), Some(state));
    assert_eq!(engine.last_seq(&handle), Some(3));
}

#[test]
fn corrupt_snapshot_fails_the_load() {
    let doc = DocId::new("doc");
    let mut store = MemoryStore::new();
    store.put(&snapshot_key_of(&doc), &b"not a snapshot".to_vec()).unwrap();
    let mut engine = Engine::new(store, 1_000);
    assert!(matches!(engine.load(&doc, 0), Err(EngineError::DocLoad)));
    assert!(!engine.is_resident(&doc));
    // other documents are not affected
    assert!(engine.load(&DocId::new("other"), 0).is_ok());
}

#[test]
fn gap_in_the_log_fails_the_load() {
    let doc = DocId::new("doc");
    let updates = appended(1, &["ab", "cd"]);
    let mut store = MemoryStore::new();
    store.put(&update_key_of(&doc, 1), &updates[0]).unwrap();
    store.put(&update_key_of(&doc, 3), &updates[1]).unwrap();
    let mut engine = Engine::new(store, 1_000);
    assert!(matches!(engine.load(&doc, 0), Err(EngineError::DocLoad)));
}

#[test]
fn store_failure_fails_the_load() {
    let mut store = MemoryStore::new();
    store.fail_after(0);
    let mut engine = Engine::new(store, 1_000);
    assert!(matches!(
        engine.load(&DocId::new("doc"), 0),
        Err(EngineError::Store(StoreError::Transient))
    ));
    assert_eq!(engine.resident_count(), 0);
}

#[test]
fn release_counts_down_and_does_not_evict() {
    let (mut engine, handle) = engine_with(&appended(1, &["x"]));
    engine.load(&DocId::new("doc"), 0).unwrap();
    assert_eq!(engine.release(&handle, 5), Ok(1));
    assert_eq!(engine.release(&handle, 6), Ok(0));
    assert_eq!(engine.release(&handle, 7), Err(EngineError::NoSessions));
    assert!(engine.is_resident(&DocId::new("doc")));
    assert_eq!(engine.session_count(&handle), Some(0));
}

#[test]
fn evict_waits_for_sessions_and_idleness() {
    let (mut engine, handle) = engine_with(&appended(1, &["x"]));
    assert_eq!(engine.evict(&handle, 1_000_000), Err(EngineError::Busy));
    assert_eq!(engine.release(&handle, 500), Ok(0));
    assert_eq!(engine.evict(&handle, 499), Err(EngineError::NotIdle));
    assert_eq!(engine.evict(&handle, 1_499), Err(EngineError::NotIdle));
    assert!(engine.is_resident(&DocId::new("doc")));
    assert_eq!(engine.evict(&handle, 1_500), Ok(()));
    assert!(!engine.is_resident(&DocId::new("doc")));
    assert_eq!(engine.resident_count(), 0);
}

#[test]
fn eviction_round_trip() {
    let updates = appended(1, &["ab", "cd"]);
    let (mut engine, handle) = engine_with(&updates);
    let state = engine.state(&handle).unwrap();
    assert_eq!(engine.release(&handle, 20), Ok(0));
    assert_eq!(engine.evict(&handle, 5_000), Ok(()));
    // an eviction saves first
    assert_eq!(engine.store().len(), 1);
    let handle = engine.load(&DocId::new("doc"), 6_000).unwrap();
    assert_eq!(engine.state(&handle), Some(state));
    assert_eq!(engine.last_seq(&handle), Some(2));
    assert_eq!(engine.is_dirty(&handle), Some(false));
    assert_eq!(engine.session_count(&handle), Some(1));
}

#[test]
fn eviction_that_cannot_save_keeps_the_document() {
    let updates = appended(1, &["ab"]);
    let mut store = MemoryStore::new();
    store.fail_after(1);
    let mut engine = Engine::new(store, 10);
    let handle = engine.load(&DocId::new("doc"), 0).unwrap();
    apply(&mut engine, &handle, &updates[0], 1).unwrap();
    engine.release(&handle, 2).unwrap();
    assert_eq!(engine.evict(&handle, 100), Err(EngineError::Store(StoreError::Transient)));
    assert!(engine.is_resident(&DocId::new("doc")));
    assert_eq!(engine.is_dirty(&handle), Some(true));
}

#[test]
fn sweep_evicts_the_idle_documents_only() {
    let mut engine = Engine::new(MemoryStore::new(), 1_000);
    let busy = engine.load(&DocId::new("busy"), 0).unwrap();
    let idle = engine.load(&DocId::new("idle"), 0).unwrap();
    let recent = engine.load(&DocId::new("recent"), 0).unwrap();
    apply(&mut engine, &idle, &appended(1, &["x"])[0], 1).unwrap();
    engine.release(&idle, 100).unwrap();
    engine.release(&recent, 900).unwrap();
    let evicted = engine.sweep_idle(1_100);
    assert_eq!(evicted.len(), 1);
    assert!(evicted[0].same(&DocId::new("idle")));
    assert!(engine.is_resident(&DocId::new("busy")));
    assert!(engine.is_resident(&DocId::new("recent")));
    assert!(!engine.is_resident(&DocId::new("idle")));
    assert_eq!(engine.session_count(&busy), Some(1));
    assert!(engine.sweep_idle(1_100).is_empty());
    // what was evicted comes back as it was
    let idle = engine.load(&DocId::new("idle"), 1_200).unwrap();
    assert_eq!(text_of(&engine.state(&idle).unwrap()), "x");
    let evicted = engine.sweep_idle(1_900);
    assert_eq!(evicted.len(), 1);
    assert!(evicted[0].same(&DocId::new("recent")));
}

#[test]
fn sweep_keeps_what_it_cannot_save() {
    let mut store = MemoryStore::new();
    store.fail_after(1);
    let mut engine = Engine::new(store, 10);
    let doc = engine.load(&DocId::new("doc"), 0).unwrap();
    apply(&mut engine, &doc, &appended(1, &["x"])[0], 1).unwrap();
    engine.release(&doc, 2).unwrap();
    assert!(engine.sweep_idle(100).is_empty());
    assert!(engine.is_resident(&DocId::new("doc")));
    assert_eq!(engine.is_dirty(&doc), Some(true));
}

#[test]
fn activity_postpones_eviction() {
    let (mut engine, handle) = engine_with(&[]);
    assert_eq!(engine.release(&handle, 100), Ok(0));
    // a client that comes back within the threshold finds the document resident
    let again = engine.load(&DocId::new("doc"), 1_000).unwrap();
    assert_eq!(engine.release(&again, 1_050), Ok(0));
    assert_eq!(engine.evict(&handle, 2_049), Err(EngineError::NotIdle));
    assert_eq!(engine.evict(&handle, 2_050), Ok(()));
}

#[test]
fn permanent_store_failure_makes_the_document_unavailable() {
    let mut store = MemoryStore::new();
    store.break_after(0);
    let mut engine = Engine::new(store, 1_000);
    assert!(matches!(
        engine.load(&DocId::new("doc"), 0),
        Err(EngineError::Store(StoreError::Permanent))
    ));
    assert!(!engine.is_resident(&DocId::new("doc")));
}


#[test]
fn operations_on_a_document_that_is_not_resident() {
    let (mut engine, handle) = engine_with(&[]);
    assert_eq!(engine.release(&handle, 1), Ok(0));
    assert_eq!(engine.evict(&handle, 2_000), Ok(()));
    let update = appended(1, &["ab"]).remove(0);
    assert_eq!(
        engine.apply_update(&handle, &update, update.clone(), 3_000),
        Err(EngineError::NotResident)
    );
    assert_eq!(engine.absorb(&handle, update.clone()), Err(EngineError::NotResident));
    assert_eq!(engine.checkpoint(&handle), Err(EngineError::NotResident));
    assert_eq!(engine.release(&handle, 3_000), Err(EngineError::NotResident));
    assert_eq!(engine.evict(&handle, 3_000), Err(EngineError::NotResident));
    assert_eq!(engine.state(&handle), None);
    assert_eq!(engine.last_seq(&handle), None);
    assert_eq!(engine.merged_seq(&handle), None);
    assert_eq!(engine.next_pending(&handle), None);
    assert_eq!(engine.is_dirty(&handle), None);
    assert_eq!(engine.session_count(&handle), None);
    assert!(engine.handle_of(&DocId::new("doc")).is_none());
}

#[test]
fn the_merged_state_is_taken_as_it_is_given() {
    let (mut engine, handle) = engine_with(&[]);
    assert_eq!(engine.apply_update(&handle, &vec![1, 2], vec![9, 9, 9], 5), Ok(1));
    assert_eq!(engine.state(&handle), Some(vec![9, 9, 9]));
    assert_eq!(engine.merged_seq(&handle), Some(1));
    assert_eq!(engine.last_seq(&handle), Some(1));
    assert_eq!(
        engine.store().get(&update_key_of(&DocId::new("doc"), 1)),
        Ok(Some(vec![1, 2]))
    );
    assert_eq!(engine.absorb(&handle, vec![7]), Err(EngineError::NothingPending));
    assert_eq!(engine.state(&handle), Some(vec![9, 9, 9]));
}

#[test]
fn cold_load_without_checkpoint_has_the_log_pending() {
    let updates = appended(1, &["ab", "cd", "ef"]);
    let (engine, handle) = engine_with(&updates);
    let text = text_of(&engine.state(&handle).unwrap());
    let (mut engine, handle) = reloaded(engine.into_store());
    // nothing was saved, so the state is the empty one and the whole log is pending
    assert_eq!(engine.state(&handle), Some(vec![]));
    assert_eq!(engine.merged_seq(&handle), Some(0));
    assert_eq!(engine.last_seq(&handle), Some(3));
    assert_eq!(engine.is_dirty(&handle), Some(false));
    assert_eq!(engine.next_pending(&handle), Some(updates[0].clone()));
    let state = engine.state(&handle).unwrap();
    assert_eq!(engine.absorb(&handle, merge(&state, &updates[0]).unwrap()), Ok(1));
    assert_eq!(engine.next_pending(&handle), Some(updates[1].clone()));
    assert_eq!(engine.merged_seq(&handle), Some(1));
    assert_eq!(engine.last_seq(&handle), Some(3));
    assert_eq!(engine.is_dirty(&handle), Some(true));
    assert_eq!(catch_up(&mut engine, &handle), 2);
    assert_eq!(engine.next_pending(&handle), None);
    assert_eq!(engine.merged_seq(&handle), Some(3));
    assert_eq!(text_of(&engine.state(&handle).unwrap()), text);
    assert_eq!(engine.absorb(&handle, vec![1]), Err(EngineError::NothingPending));
    // the store was not touched
    assert_eq!(engine.store().len(), 3);
}

#[test]
fn a_document_with_pending_updates_takes_none() {
    let updates = appended(1, &["ab", "cd"]);
    let (engine, _) = engine_with(&updates[..1]);
    let (mut engine, handle) = reloaded(engine.into_store());
    assert_eq!(
        engine.apply_update(&handle, &updates[1], vec![1], 5),
        Err(EngineError::Lagging)
    );
    assert_eq!(engine.last_seq(&handle), Some(1));
    assert_eq!(engine.store().len(), 1);
    assert_eq!(catch_up(&mut engine, &handle), 1);
    assert_eq!(apply(&mut engine, &handle, &updates[1], 6), Ok(2));
    assert_eq!(text_of(&engine.state(&handle).unwrap()), "abcd");
}

#[test]
fn checkpoint_of_a_lagging_document_keeps_what_is_pending() {
    let updates = appended(1, &["ab", "cd", "ef"]);
    let (engine, _) = engine_with(&updates);
    let (mut engine, handle) = reloaded(engine.into_store());
    let state = engine.state(&handle).unwrap();
    engine.absorb(&handle, merge(&state, &updates[0]).unwrap()).unwrap();
    let state = engine.state(&handle).unwrap();
    assert_eq!(engine.checkpoint(&handle), Ok(true));
    // the snapshot is at the first update; the second and third stay logged
    let doc = DocId::new("doc");
    assert_eq!(engine.store().get(&snapshot_key_of(&doc)), Ok(Some(encode_snapshot(1, &state))));
    assert_eq!(engine.store().get(&update_key_of(&doc, 1)), Ok(None));
    assert_eq!(engine.store().get(&update_key_of(&doc, 2)), Ok(Some(updates[1].clone())));
    assert_eq!(engine.store().get(&update_key_of(&doc, 3)), Ok(Some(updates[2].clone())));
    assert_eq!(engine.is_dirty(&handle), Some(false));
    let (mut engine, handle) = reloaded(engine.into_store());
    assert_eq!(engine.state(&handle), Some(state));
    assert_eq!(engine.merged_seq(&handle), Some(1));
    assert_eq!(engine.last_seq(&handle), Some(3));
    assert_eq!(catch_up(&mut engine, &handle), 2);
    assert_eq!(text_of(&engine.state(&handle).unwrap()), "abcdef");
}

#[test]
fn sequence_numbers_go_on_after_a_checkpoint() {
    let updates = appended(1, &["ab", "cd", "ef"]);
    let (mut engine, handle) = engine_with(&updates[..2]);
    assert_eq!(engine.checkpoint(&handle), Ok(true));
    assert_eq!(apply(&mut engine, &handle, &updates[2], 99), Ok(3));
    let doc = DocId::new("doc");
    assert_eq!(engine.store().get(&update_key_of(&doc, 3)), Ok(Some(updates[2].clone())));
    assert_eq!(engine.store().len(), 2);
    let text = text_of(&engine.state(&handle).unwrap());
    let (mut engine, handle) = reloaded(engine.into_store());
    assert_eq!(engine.merged_seq(&handle), Some(2));
    assert_eq!(engine.last_seq(&handle), Some(3));
    assert_eq!(catch_up(&mut engine, &handle), 1);
    assert_eq!(text_of(&engine.state(&handle).unwrap()), text);
    assert_eq!(text, "abcdef");
    let more = appended(2, &["!"]).remove(0);
    assert_eq!(apply(&mut engine, &handle, &more, 100), Ok(4));
}

#[test]
fn crash_after_snapshot_before_log_is_deleted() {
    let updates = appended(1, &["ab", "cd", "ef"]);
    let mut store = MemoryStore::new();
    // three log writes and the snapshot write succeed, then the store is gone
    store.fail_after(4);
    let mut engine = Engine::new(store, 1_000);
    let handle = engine.load(&DocId::new("doc"), 0).unwrap();
    for update in &updates {
        apply(&mut engine, &handle, update, 1).unwrap();
    }
    let state = engine.state(&handle).unwrap();
    assert_eq!(engine.checkpoint(&handle), Err(EngineError::Store(StoreError::Transient)));
    assert_eq!(engine.is_dirty(&handle), Some(true));
    assert_eq!(engine.state(&handle), Some(state.clone()));
    let mut store = engine.into_store();
    store.heal();
    // the snapshot and the whole log are there
    assert_eq!(store.len(), 4);
    let (mut engine, handle) = reloaded(store);
    assert_eq!(engine.state(&handle), Some(state.clone()));
    assert_eq!(engine.merged_seq(&handle), Some(3));
    assert_eq!(engine.last_seq(&handle), Some(3));
    assert_eq!(engine.next_pending(&handle), None);
    // the next update does not reuse a number, and the next checkpoint clears the leftovers
    let more = appended(2, &["!"]).remove(0);
    assert_eq!(apply(&mut engine, &handle, &more, 2), Ok(4));
    assert_eq!(engine.checkpoint(&handle), Ok(true));
    assert_eq!(engine.store().len(), 1);
}

#[test]
fn crash_before_snapshot_is_written() {
    let updates = appended(1, &["ab", "cd", "ef"]);
    let (mut engine, handle) = engine_with(&updates[..1]);
    assert_eq!(engine.checkpoint(&handle), Ok(true));
    let snapshot_state = engine.state(&handle).unwrap();
    let old_snapshot = engine.store().get(&snapshot_key_of(&DocId::new("doc"))).unwrap();
    let mut store = engine.into_store();
    // the two log writes succeed, the snapshot write does not
    store.fail_after(2);
    let (mut engine, handle) = reloaded(store);
    apply(&mut engine, &handle, &updates[1], 1).unwrap();
    apply(&mut engine, &handle, &updates[2], 1).unwrap();
    let text = text_of(&engine.state(&handle).unwrap());
    assert_eq!(engine.checkpoint(&handle), Err(EngineError::Store(StoreError::Transient)));
    assert_eq!(engine.is_dirty(&handle), Some(true));
    let mut store = engine.into_store();
    store.heal();
    // the old snapshot and the whole log are there
    let doc = DocId::new("doc");
    assert_eq!(store.len(), 3);
    assert_eq!(store.get(&snapshot_key_of(&doc)), Ok(old_snapshot));
    let (mut engine, handle) = reloaded(store);
    // the load gives the old snapshot and, pending, the whole log above it, in order
    assert_eq!(engine.state(&handle), Some(snapshot_state));
    assert_eq!(engine.merged_seq(&handle), Some(1));
    assert_eq!(engine.last_seq(&handle), Some(3));
    assert_eq!(engine.next_pending(&handle), Some(updates[1].clone()));
    assert_eq!(catch_up(&mut engine, &handle), 2);
    assert_eq!(text_of(&engine.state(&handle).unwrap()), text);
    assert_eq!(text, "abcdef");
    // the checkpoint is made up for at the next attempt
    assert_eq!(engine.checkpoint(&handle), Ok(true));
    assert_eq!(engine.store().len(), 1);
}

#[test]
fn update_records_are_not_read_into() {
    // whether a logged update can be merged is for the document library to say
    let doc = DocId::new("doc");
    let updates = appended(1, &["ab", "cd"]);
    let mut store = MemoryStore::new();
    store.put(&update_key_of(&doc, 1), &updates[0]).unwrap();
    store.put(&update_key_of(&doc, 2), &vec![0xff]).unwrap();
    let (mut engine, handle) = reloaded(store);
    assert_eq!(engine.last_seq(&handle), Some(2));
    let state = engine.state(&handle).unwrap();
    engine.absorb(&handle, merge(&state, &updates[0]).unwrap()).unwrap();
    let bad = engine.next_pending(&handle).unwrap();
    assert_eq!(bad, vec![0xff]);
    assert_eq!(merge(&engine.state(&handle).unwrap(), &bad), None);
}

#[test]
fn log_records_below_the_baseline_are_ignored() {
    let doc = DocId::new("doc");
    let updates = appended(1, &["ab", "cd"]);
    let first = merge(&[], &updates[0]).unwrap();
    let mut store = MemoryStore::new();
    store.put(&snapshot_key_of(&doc), &encode_snapshot(1, &first)).unwrap();
    store.put(&update_key_of(&doc, 0), &vec![0xff]).unwrap();
    store.put(&update_key_of(&doc, 1), &vec![0xff]).unwrap();
    store.put(&update_key_of(&doc, 2), &updates[1]).unwrap();
    let (mut engine, handle) = reloaded(store);
    assert_eq!(engine.state(&handle), Some(first));
    assert_eq!(engine.merged_seq(&handle), Some(1));
    assert_eq!(engine.last_seq(&handle), Some(2));
    assert_eq!(engine.next_pending(&handle), Some(updates[1].clone()));
    assert_eq!(catch_up(&mut engine, &handle), 1);
    assert_eq!(text_of(&engine.state(&handle).unwrap()), "abcd");
}

#[test]
fn documents_do_not_share_keys() {
    let mut engine = Engine::new(MemoryStore::new(), 1_000);
    let a = engine.load(&DocId::new("a"), 0).unwrap();
    let b = engine.load(&DocId::new("a/update"), 0).unwrap();
    let for_a = appended(1, &["one"]);
    let for_b = appended(2, &["two", "three"]);
    apply(&mut engine, &a, &for_a[0], 1).unwrap();
    apply(&mut engine, &b, &for_b[0], 1).unwrap();
    apply(&mut engine, &b, &for_b[1], 1).unwrap();
    assert_eq!(engine.checkpoint(&a), Ok(true));
    assert_eq!(engine.last_seq(&b), Some(2));
    let text_b = text_of(&engine.state(&b).unwrap());
    let mut again = Engine::new(engine.into_store(), 1_000);
    let a = again.load(&DocId::new("a"), 0).unwrap();
    let b = again.load(&DocId::new("a/update"), 0).unwrap();
    assert_eq!(text_of(&again.state(&a).unwrap()), "one");
    assert_eq!(again.last_seq(&a), Some(1));
    assert_eq!(again.next_pending(&a), None);
    assert_eq!(again.last_seq(&b), Some(2));
    assert_eq!(catch_up(&mut again, &b), 2);
    assert_eq!(text_of(&again.state(&b).unwrap()), text_b);
    assert_eq!(again.resident_ids().len(), 2);
}

#[test]
fn checkpoint_all_saves_every_dirty_document() {
    let mut engine = Engine::new(MemoryStore::new(), 1_000);
    let a = engine.load(&DocId::new("a"), 0).unwrap();
    let b = engine.load(&DocId::new("b"), 0).unwrap();
    let c = engine.load(&DocId::new("c"), 0).unwrap();
    apply(&mut engine, &a, &appended(1, &["x"])[0], 1).unwrap();
    apply(&mut engine, &c, &appended(2, &["y"])[0], 1).unwrap();
    let state_a = engine.state(&a).unwrap();
    assert!(engine.checkpoint_all().is_empty());
    assert_eq!(engine.is_dirty(&a), Some(false));
    assert_eq!(engine.is_dirty(&b), Some(false));
    assert_eq!(engine.is_dirty(&c), Some(false));
    // one snapshot for each document that had updates, and the logs are gone
    assert_eq!(engine.store().len(), 2);
    assert_eq!(
        engine.store().get(&snapshot_key_of(&DocId::new("a"))),
        Ok(Some(encode_snapshot(1, &state_a)))
    );
    assert_eq!(engine.store().get(&snapshot_key_of(&DocId::new("b"))), Ok(None));
    assert!(engine.checkpoint_all().is_empty());
    assert_eq!(engine.resident_count(), 3);
}

#[test]
fn checkpoint_all_names_what_it_could_not_save() {
    let mut store = MemoryStore::new();
    // two log writes, one snapshot write and one delete succeed
    store.fail_after(4);
    let mut engine = Engine::new(store, 1_000);
    let a = engine.load(&DocId::new("a"), 0).unwrap();
    let b = engine.load(&DocId::new("b"), 0).unwrap();
    let c = engine.load(&DocId::new("c"), 0).unwrap();
    apply(&mut engine, &a, &appended(1, &["x"])[0], 1).unwrap();
    apply(&mut engine, &b, &appended(2, &["y"])[0], 1).unwrap();
    let failed = engine.checkpoint_all();
    assert_eq!(failed.len(), 1);
    assert!(failed[0].same(&DocId::new("b")));
    assert_eq!(engine.is_dirty(&a), Some(false));
    assert_eq!(engine.is_dirty(&b), Some(true));
    assert_eq!(engine.is_dirty(&c), Some(false));
    let state_a = engine.state(&a).unwrap();
    let text_b = text_of(&engine.state(&b).unwrap());
    let mut store = engine.into_store();
    store.heal();
    let mut engine = Engine::new(store, 1_000);
    let a = engine.load(&DocId::new("a"), 0).unwrap();
    let b = engine.load(&DocId::new("b"), 0).unwrap();
    assert_eq!(engine.state(&a), Some(state_a));
    catch_up(&mut engine, &b);
    assert_eq!(text_of(&engine.state(&b).unwrap()), text_b);
}

#[test]
fn sequence_numbers_run_out_at_the_last_u64() {
    let doc = DocId::new("doc");
    let updates = appended(1, &["ab", "cd"]);
    let state = merge(&[], &updates[0]).unwrap();
    let mut store = MemoryStore::new();
    store.put(&snapshot_key_of(&doc), &encode_snapshot(u64::MAX - 1, &state)).unwrap();
    let (mut engine, handle) = reloaded(store);
    assert_eq!(engine.last_seq(&handle), Some(u64::MAX - 1));
    assert_eq!(apply(&mut engine, &handle, &updates[1], 1), Ok(u64::MAX));
    assert_eq!(
        engine.store().get(&update_key_of(&doc, u64::MAX)).unwrap(),
        Some(updates[1].clone())
    );
    let before = engine.state(&handle);
    let more = appended(2, &["!"]).remove(0);
    assert_eq!(apply(&mut engine, &handle, &more, 2), Err(EngineError::SequenceExhausted));
    assert_eq!(engine.state(&handle), before);
    assert_eq!(engine.checkpoint(&handle), Ok(true));
    let (engine, handle) = reloaded(engine.into_store());
    assert_eq!(engine.last_seq(&handle), Some(u64::MAX));
    assert_eq!(engine.state(&handle), before);
}

#[test]
fn updates_merge_the_same_in_any_order() {
    let from_one = appended(1, &["ab", "cd"]);
    let from_two = appended(2, &["xy"]);
    let orders: [[&Vec<u8>; 3]; 3] = [
        [&from_one[0], &from_one[1], &from_two[0]],
        [&from_two[0], &from_one[0], &from_one[1]],
        [&from_one[0], &from_two[0], &from_one[1]],
    ];
    let mut texts = Vec::new();
    for order in orders {
        let mut engine = Engine::new(MemoryStore::new(), 1_000);
        let handle = engine.load(&DocId::new("doc"), 0).unwrap();
        for update in order {
            apply(&mut engine, &handle, update, 1).unwrap();
        }
        // merging an update a second time changes nothing
        apply(&mut engine, &handle, &from_two[0], 2).unwrap();
        texts.push(text_of(&engine.state(&handle).unwrap()));
    }
    assert_eq!(texts[0], texts[1]);
    assert_eq!(texts[0], texts[2]);
    assert_eq!(texts[0].len(), 6);
    assert!(texts[0].contains("abcd"));
    assert!(texts[0].contains("xy"));
}

#[test]
fn document_that_does_not_merge_is_discarded() {
    let doc = DocId::new("doc");
    let mut store = MemoryStore::new();
    store.put(&update_key_of(&doc, 1), &vec![0xff]).unwrap();
    let (mut engine, handle) = reloaded(store);
    let bad = engine.next_pending(&handle).unwrap();
    assert_eq!(merge(&[], &bad), None);
    assert_eq!(engine.discard(&handle), Err(EngineError::Busy));
    assert_eq!(engine.release(&handle, 1), Ok(0));
    assert_eq!(engine.discard(&handle), Ok(()));
    assert!(!engine.is_resident(&doc));
    assert_eq!(engine.discard(&handle), Err(EngineError::NotResident));
    // the store is as it was found
    assert_eq!(engine.store().len(), 1);
    assert_eq!(engine.store().get(&update_key_of(&doc, 1)), Ok(Some(vec![0xff])));
}
