//! The byte store that documents are persisted to.
//!
//! A store maps byte-string keys to byte-string values. The engine treats
//! keys as a hierarchical namespace; a store knows nothing about documents.
//! [`Store`] is the capability set that a backend provides, and
//! [`MemoryStore`] is a backend that keeps everything in memory and can be
//! told to start failing, which stands in for a lost connection or a crash.

use vstd::prelude::*;
use crate::codec::{has_prefix, starts_with, views_of};

verus! {

/// Why a store operation failed.
#[derive(Clone, Copy, Debug, PartialEq, Eq, Structural)]
pub enum StoreError {
    /// An I/O failure that may not recur; the operation can be retried.
    Transient,
    /// A failure that retrying will not cure, such as rejected credentials.
    Permanent,
}

/// What a store holds: its keys and their values.
pub type Contents = Map<Seq<u8>, Seq<u8>>;

/// Lexicographic order on byte strings.
pub open spec fn lex_less(a: Seq<u8>, b: Seq<u8>) -> bool
    decreases a.len(),
{
    if b.len() == 0 {
        false
    } else if a.len() == 0 {
        true
    } else if a[0] != b[0] {
        a[0] < b[0]
    } else {
        lex_less(a.drop_first(), b.drop_first())
    }
}

pub proof fn lemma_lex_irreflexive(a: Seq<u8>)
    ensures
        !lex_less(a, a),
    decreases a.len(),
{
    if a.len() > 0 {
        lemma_lex_irreflexive(a.drop_first());
    }
}

pub proof fn lemma_lex_transitive(a: Seq<u8>, b: Seq<u8>, c: Seq<u8>)
    requires
        lex_less(a, b),
        lex_less(b, c),
    ensures
        lex_less(a, c),
    decreases a.len(),
{
    if a.len() > 0 && a[0] == b[0] && b[0] == c[0] {
        lemma_lex_transitive(a.drop_first(), b.drop_first(), c.drop_first());
    }
}

/// `keys` is the answer to listing `prefix`: every stored key that begins
/// with `prefix`, once each, in ascending lexicographic order.
pub open spec fn is_listing(
    contents: Map<Seq<u8>, Seq<u8>>,
    prefix: Seq<u8>,
    keys: Seq<Seq<u8>>,
) -> bool {
    &&& forall|i: int, j: int| 0 <= i < j < keys.len() ==> lex_less(keys[i], keys[j])
    &&& forall|i: int|
        0 <= i < keys.len() ==> contents.contains_key(#[trigger] keys[i]) && starts_with(
            keys[i],
            prefix,
        )
    &&& forall|k: Seq<u8>|
        contents.contains_key(k) && starts_with(k, prefix) ==> exists|i: int|
            0 <= i < keys.len() && #[trigger] keys[i] == k
}

/// What a lookup of `key` must return.
pub open spec fn is_lookup(
    contents: Map<Seq<u8>, Seq<u8>>,
    key: Seq<u8>,
    found: Option<Vec<u8>>,
) -> bool {
    match found {
        Some(value) => contents.contains_key(key) && contents[key] == value@,
        None => !contents.contains_key(key),
    }
}

/// The operations a storage backend provides.
///
/// A write either takes effect as a whole or not at all: after a failed
/// `put` or `delete` the contents are what they were. A read that follows a
/// write of the same key sees that write. `reliable` holds of a store whose
/// operations cannot fail; a backend that does I/O defines it as `false`.
pub trait Store {
    /// The keys held and their values.
    spec fn contents(&self) -> Contents;

    /// No operation on this store fails.
    spec fn reliable(&self) -> bool;

    /// The value stored under `key`, if there is one.
    fn get(&self, key: &Vec<u8>) -> (r: Result<Option<Vec<u8>>, StoreError>)
        ensures
            self.reliable() ==> r is Ok,
            r matches Ok(found) ==> is_lookup(self.contents(), key@, found),
    ;

    /// Stores `value` under `key`, replacing what was there.
    fn put(&mut self, key: &Vec<u8>, value: &Vec<u8>) -> (r: Result<(), StoreError>)
        ensures
            old(self).reliable() ==> r is Ok,
            final(self).reliable() == old(self).reliable(),
            r is Ok ==> final(self).contents() == old(self).contents().insert(key@, value@),
            r is Err ==> final(self).contents() == old(self).contents(),
    ;

    /// Removes `key` and its value; removing an absent key succeeds.
    fn delete(&mut self, key: &Vec<u8>) -> (r: Result<(), StoreError>)
        ensures
            old(self).reliable() ==> r is Ok,
            final(self).reliable() == old(self).reliable(),
            r is Ok ==> final(self).contents() == old(self).contents().remove(key@),
            r is Err ==> final(self).contents() == old(self).contents(),
    ;

    /// The stored keys that begin with `prefix`, in ascending order.
    fn list(&self, prefix: &Vec<u8>) -> (r: Result<Vec<Vec<u8>>, StoreError>)
        ensures
            self.reliable() ==> r is Ok,
            r matches Ok(keys) ==> is_listing(self.contents(), prefix@, views_of(keys@)),
    ;
}

/// How two byte strings compare.
#[derive(Clone, Copy, Debug, PartialEq, Eq, Structural)]
pub enum Rank {
    Before,
    Same,
    After,
}

/// Compares two byte strings lexicographically.
pub fn rank(a: &Vec<u8>, b: &Vec<u8>) -> (r: Rank)
    ensures
        r == Rank::Before <==> lex_less(a@, b@),
        r == Rank::Same <==> a@ == b@,
        r == Rank::After <==> lex_less(b@, a@),
{
    let mut i: usize = 0;
    proof {
        assert(a@.skip(0) =~= a@);
        assert(b@.skip(0) =~= b@);
    }
    while i < a.len() && i < b.len()
        invariant
            i <= a.len(),
            i <= b.len(),
            a@.subrange(0, i as int) == b@.subrange(0, i as int),
            lex_less(a@, b@) == lex_less(a@.skip(i as int), b@.skip(i as int)),
            lex_less(b@, a@) == lex_less(b@.skip(i as int), a@.skip(i as int)),
        decreases a.len() - i,
    {
        let x: u8 = a[i];
        let y: u8 = b[i];
        proof {
            assert(a@.skip(i as int)[0] == x);
            assert(b@.skip(i as int)[0] == y);
            assert(a@.skip(i as int).drop_first() =~= a@.skip(i + 1));
            assert(b@.skip(i as int).drop_first() =~= b@.skip(i + 1));
        }
        if x < y {
            proof {
                lemma_differ(a@, b@, i as int);
            }
            return Rank::Before;
        }
        if x > y {
            proof {
                lemma_differ(a@, b@, i as int);
            }
            return Rank::After;
        }
        assert(a@.subrange(0, i + 1) =~= a@.subrange(0, i as int).push(x));
        assert(b@.subrange(0, i + 1) =~= b@.subrange(0, i as int).push(y));
        i = i + 1;
    }
    proof {
        lemma_lex_irreflexive(a@);
        if a.len() == b.len() {
            assert(a@ =~= a@.subrange(0, i as int));
            assert(b@ =~= b@.subrange(0, i as int));
        }
    }
    if a.len() < b.len() {
        Rank::Before
    } else if a.len() > b.len() {
        Rank::After
    } else {
        Rank::Same
    }
}

proof fn lemma_differ(a: Seq<u8>, b: Seq<u8>, i: int)
    requires
        0 <= i < a.len(),
        0 <= i < b.len(),
        a[i] != b[i],
    ensures
        a != b,
{
}

/// One stored key with its value.
pub struct Entry {
    key: Vec<u8>,
    value: Vec<u8>,
}

/// The keys of `es` ascend strictly.
pub closed spec fn ascending(es: Seq<Entry>) -> bool {
    forall|i: int, j: int| 0 <= i < j < es.len() ==> lex_less(es[i].key@, es[j].key@)
}

pub closed spec fn position(es: Seq<Entry>, k: Seq<u8>) -> int {
    choose|i: int| 0 <= i < es.len() && es[i].key@ == k
}

/// The map that a sequence of entries stands for.
pub closed spec fn entries_map(es: Seq<Entry>) -> Map<Seq<u8>, Seq<u8>> {
    Map::new(
        |k: Seq<u8>| exists|i: int| 0 <= i < es.len() && es[i].key@ == k,
        |k: Seq<u8>| es[position(es, k)].value@,
    )
}

proof fn lemma_entries_map(es: Seq<Entry>)
    requires
        ascending(es),
    ensures
        forall|i: int|
            0 <= i < es.len() ==> entries_map(es).contains_key(#[trigger] es[i].key@)
                && entries_map(es)[es[i].key@] == es[i].value@,
        forall|k: Seq<u8>| #[trigger]
            entries_map(es).contains_key(k) ==> 0 <= position(es, k) < es.len() && es[position(
                es,
                k,
            )].key@ == k,
{
    assert forall|i: int| 0 <= i < es.len() implies entries_map(es).contains_key(
        #[trigger] es[i].key@,
    ) && entries_map(es)[es[i].key@] == es[i].value@ by {
        let k = es[i].key@;
        let j = position(es, k);
        assert(0 <= j < es.len() && es[j].key@ == k);
        lemma_lex_irreflexive(k);
        assert(j == i);
    }
}

/// A store held in memory.
///
/// A fresh store never fails. After `fail_after(n)` the next `n` writes
/// succeed and every operation after them fails with
/// [`StoreError::Transient`], until `heal` is called. `break_after` does
/// the same with [`StoreError::Permanent`].
pub struct MemoryStore {
    entries: Vec<Entry>,
    budget: Option<u64>,
    fault: StoreError,
}

impl MemoryStore {
    #[verifier::type_invariant]
    spec fn inv(self) -> bool {
        ascending(self.entries@)
    }

    /// The number of writes that will still succeed, where that is limited.
    pub closed spec fn budget(&self) -> Option<u64> {
        self.budget
    }

    /// The error with which the store fails once its budget is spent.
    pub closed spec fn fault(&self) -> StoreError {
        self.fault
    }

    /// An empty store that never fails.
    pub fn new() -> (s: MemoryStore)
        ensures
            s.contents() == Map::<Seq<u8>, Seq<u8>>::empty(),
            s.budget() is None,
            s.fault() == StoreError::Transient,
    {
        let s = MemoryStore { entries: Vec::new(), budget: None, fault: StoreError::Transient };
        assert(s.contents() =~= Map::<Seq<u8>, Seq<u8>>::empty());
        s
    }

    /// Lets the next `writes` writes succeed and every operation after them
    /// fail with [`StoreError::Transient`].
    pub fn fail_after(&mut self, writes: u64)
        ensures
            final(self).contents() == old(self).contents(),
            final(self).budget() == Some(writes),
            final(self).fault() == StoreError::Transient,
    {
        proof {
            use_type_invariant(&*self);
        }
        self.budget = Some(writes);
        self.fault = StoreError::Transient;
    }

    /// Lets the next `writes` writes succeed and every operation after them
    /// fail with [`StoreError::Permanent`].
    pub fn break_after(&mut self, writes: u64)
        ensures
            final(self).contents() == old(self).contents(),
            final(self).budget() == Some(writes),
            final(self).fault() == StoreError::Permanent,
    {
        proof {
            use_type_invariant(&*self);
        }
        self.budget = Some(writes);
        self.fault = StoreError::Permanent;
    }

    /// Ends a failure set up by `fail_after` or `break_after`.
    pub fn heal(&mut self)
        ensures
            final(self).contents() == old(self).contents(),
            final(self).budget() is None,
            final(self).fault() == old(self).fault(),
    {
        proof {
            use_type_invariant(&*self);
        }
        self.budget = None;
    }

    /// The number of keys held.
    pub fn len(&self) -> (n: usize)
        ensures
            n == self.contents().dom().len(),
            self.contents().dom().finite(),
    {
        proof {
            use_type_invariant(self);
            lemma_entries_count(self.entries@);
        }
        self.entries.len()
    }

    /// The index of the first entry whose key is not before `key`, and
    /// whether that entry holds `key`.
    fn locate(&self, key: &Vec<u8>) -> (r: (usize, bool))
        ensures
            r.0 <= self.entries.len(),
            forall|i: int| 0 <= i < r.0 ==> lex_less(#[trigger] self.entries[i].key@, key@),
            r.1 ==> r.0 < self.entries.len() && self.entries[r.0 as int].key@ == key@,
            !r.1 && r.0 < self.entries.len() ==> lex_less(key@, self.entries[r.0 as int].key@),
            r.1 <==> self.contents().contains_key(key@),
    {
        proof {
            use_type_invariant(self);
            lemma_entries_map(self.entries@);
        }
        let mut i: usize = 0;
        while i < self.entries.len()
            invariant
                i <= self.entries.len(),
                ascending(self.entries@),
                forall|j: int| 0 <= j < i ==> lex_less(#[trigger] self.entries[j].key@, key@),
            decreases self.entries.len() - i,
        {
            match rank(&self.entries[i].key, key) {
                Rank::Before => {},
                Rank::Same => {
                    assert(self.contents().contains_key(self.entries@[i as int].key@));
                    return (i, true);
                },
                Rank::After => {
                    proof {
                        lemma_absent(self.entries@, key@, i as int);
                    }
                    return (i, false);
                },
            }
            i = i + 1;
        }
        proof {
            lemma_absent(self.entries@, key@, i as int);
        }
        (i, false)
    }

    /// Whether the store is in a failure set up by `fail_after`.
    fn exhausted(&self) -> (r: bool)
        ensures
            r == (self.budget() == Some(0u64)),
    {
        match self.budget {
            Some(n) => n == 0,
            None => false,
        }
    }

    /// Counts one write against the budget.
    fn spend(&mut self)
        requires
            old(self).budget() != Some(0u64),
        ensures
            final(self).entries == old(self).entries,
            final(self).fault() == old(self).fault(),
            final(self).budget() == match old(self).budget() {
                Some(n) => Some((n - 1) as u64),
                None => None,
            },
    {
        proof {
            use_type_invariant(&*self);
        }
        match self.budget {
            Some(n) => {
                self.budget = Some(n - 1);
            },
            None => {},
        }
    }
}

proof fn lemma_absent(es: Seq<Entry>, key: Seq<u8>, at: int)
    requires
        ascending(es),
        0 <= at <= es.len(),
        forall|j: int| 0 <= j < at ==> lex_less(#[trigger] es[j].key@, key),
        at < es.len() ==> lex_less(key, es[at].key@),
    ensures
        !entries_map(es).contains_key(key),
{
    lemma_entries_map(es);
    if entries_map(es).contains_key(key) {
        let p = position(es, key);
        lemma_lex_irreflexive(key);
        if p > at {
            lemma_lex_transitive(key, es[at].key@, es[p].key@);
        }
    }
}

proof fn lemma_entries_count(es: Seq<Entry>)
    requires
        ascending(es),
    ensures
        entries_map(es).dom().finite(),
        entries_map(es).dom().len() == es.len(),
    decreases es.len(),
{
    lemma_entries_map(es);
    if es.len() == 0 {
        assert(entries_map(es).dom() =~= Set::<Seq<u8>>::empty());
    } else {
        let front = es.drop_last();
        lemma_entries_count(front);
        lemma_entries_map(front);
        let k = es.last().key@;
        assert(es[es.len() - 1].key@ == k);
        assert forall|q: Seq<u8>| entries_map(es).dom().contains(q) <==> entries_map(
            front,
        ).dom().insert(k).contains(q) by {
            if entries_map(es).dom().contains(q) {
                let p = position(es, q);
                if p < es.len() - 1 {
                    assert(front[p].key@ == q);
                }
            }
            if entries_map(front).dom().contains(q) {
                let p = position(front, q);
                assert(es[p].key@ == q);
            }
        }
        assert(entries_map(es).dom() =~= entries_map(front).dom().insert(k));
        if entries_map(front).dom().contains(k) {
            let p = position(front, k);
            assert(es[p].key@ == k);
            lemma_lex_irreflexive(k);
        }
    }
}

impl Store for MemoryStore {
    closed spec fn contents(&self) -> Contents {
        entries_map(self.entries@)
    }

    open spec fn reliable(&self) -> bool {
        self.budget() is None
    }

    fn get(&self, key: &Vec<u8>) -> (r: Result<Option<Vec<u8>>, StoreError>)
        ensures
            r is Ok <==> self.budget() != Some(0u64),
            r matches Err(e) ==> e == self.fault(),
    {
        if self.exhausted() {
            return Err(self.fault);
        }
        proof {
            use_type_invariant(self);
            lemma_entries_map(self.entries@);
        }
        let (at, found) = self.locate(key);
        if found {
            Ok(Some(self.entries[at].value.clone()))
        } else {
            Ok(None)
        }
    }

    fn put(&mut self, key: &Vec<u8>, value: &Vec<u8>) -> (r: Result<(), StoreError>)
        ensures
            r is Ok <==> old(self).budget() != Some(0u64),
            r matches Err(e) ==> e == old(self).fault() && final(self).budget() == old(self).budget(),
            final(self).fault() == old(self).fault(),
            r is Ok ==> final(self).budget() == match old(self).budget() {
                Some(n) => Some((n - 1) as u64),
                None => None,
            },
    {
        if self.exhausted() {
            return Err(self.fault);
        }
        proof {
            use_type_invariant(&*self);
            lemma_entries_map(self.entries@);
        }
        let (at, found) = self.locate(key);
        let entry = Entry { key: key.clone(), value: value.clone() };
        let ghost before = self.entries@;
        let mut entries: Vec<Entry> = Vec::new();
        std::mem::swap(&mut entries, &mut self.entries);
        if found {
            entries.set(at, entry);
            proof {
                lemma_replaced(before, entries@, at as int);
            }
        } else {
            proof {
                lemma_inserted(before, before.insert(at as int, entry), at as int);
            }
            entries.insert(at, entry);
        }
        self.entries = entries;
        self.spend();
        Ok(())
    }

    fn delete(&mut self, key: &Vec<u8>) -> (r: Result<(), StoreError>)
        ensures
            r is Ok <==> old(self).budget() != Some(0u64),
            r matches Err(e) ==> e == old(self).fault() && final(self).budget() == old(self).budget(),
            final(self).fault() == old(self).fault(),
            r is Ok ==> final(self).budget() == match old(self).budget() {
                Some(n) => Some((n - 1) as u64),
                None => None,
            },
    {
        if self.exhausted() {
            return Err(self.fault);
        }
        proof {
            use_type_invariant(&*self);
            lemma_entries_map(self.entries@);
        }
        let (at, found) = self.locate(key);
        let ghost before = self.entries@;
        if found {
            let mut entries: Vec<Entry> = Vec::new();
            std::mem::swap(&mut entries, &mut self.entries);
            proof {
                lemma_removed(before, before.remove(at as int), at as int);
            }
            let _ = entries.remove(at);
            self.entries = entries;
        } else {
            assert(self.contents() =~= self.contents().remove(key@));
        }
        self.spend();
        Ok(())
    }

    fn list(&self, prefix: &Vec<u8>) -> (r: Result<Vec<Vec<u8>>, StoreError>)
        ensures
            r is Ok <==> self.budget() != Some(0u64),
            r matches Err(e) ==> e == self.fault(),
    {
        if self.exhausted() {
            return Err(self.fault);
        }
        proof {
            use_type_invariant(self);
            lemma_entries_map(self.entries@);
        }
        let mut keys: Vec<Vec<u8>> = Vec::new();
        let ghost mut origin: Seq<int> = Seq::empty();
        let mut i: usize = 0;
        while i < self.entries.len()
            invariant
                i <= self.entries.len(),
                ascending(self.entries@),
                origin.len() == keys.len(),
                forall|j: int|
                    0 <= j < keys.len() ==> 0 <= #[trigger] origin[j] < i && keys[j]@
                        == self.entries[origin[j]].key@ && starts_with(keys[j]@, prefix@),
                forall|j: int, k: int| 0 <= j < k < keys.len() ==> origin[j] < origin[k],
                forall|e: int|
                    0 <= e < i && starts_with(#[trigger] self.entries[e].key@, prefix@)
                        ==> exists|j: int| 0 <= j < keys.len() && origin[j] == e,
            decreases self.entries.len() - i,
        {
            if has_prefix(self.entries[i].key.as_slice(), prefix.as_slice()) {
                let ghost old_origin = origin;
                keys.push(self.entries[i].key.clone());
                proof {
                    origin = origin.push(i as int);
                    assert forall|e: int|
                        0 <= e < i + 1 && starts_with(
                            #[trigger] self.entries[e].key@,
                            prefix@,
                        ) implies exists|j: int| 0 <= j < keys.len() && origin[j] == e by {
                        if e < i {
                            let j = choose|j: int| 0 <= j < old_origin.len() && old_origin[j] == e;
                            assert(origin[j] == e);
                        } else {
                            assert(origin[keys.len() - 1] == e);
                        }
                    }
                }
            }
            i = i + 1;
        }
        proof {
            let views = views_of(keys@);
            let contents = self.contents();
            assert forall|k: Seq<u8>|
                contents.contains_key(k) && starts_with(k, prefix@) implies exists|j: int|
                0 <= j < views.len() && #[trigger] views[j] == k by {
                let e = position(self.entries@, k);
                assert(starts_with(self.entries[e].key@, prefix@));
                let j = choose|j: int| 0 <= j < keys.len() && origin[j] == e;
                assert(views[j] == k);
            }
            assert forall|a: int, b: int| 0 <= a < b < views.len() implies lex_less(
                views[a],
                views[b],
            ) by {
                assert(origin[a] < origin[b]);
                assert(lex_less(self.entries[origin[a]].key@, self.entries[origin[b]].key@));
            }
            assert forall|a: int| 0 <= a < views.len() implies contents.contains_key(
                #[trigger] views[a],
            ) && starts_with(views[a], prefix@) by {
                assert(views[a] == self.entries[origin[a]].key@);
            }
        }
        Ok(keys)
    }
}

proof fn lemma_replaced(before: Seq<Entry>, after: Seq<Entry>, at: int)
    requires
        ascending(before),
        0 <= at < before.len(),
        after.len() == before.len(),
        after[at].key@ == before[at].key@,
        forall|i: int| 0 <= i < before.len() && i != at ==> after[i] == before[i],
    ensures
        ascending(after),
        entries_map(after) == entries_map(before).insert(after[at].key@, after[at].value@),
{
    assert forall|i: int, j: int| 0 <= i < j < after.len() implies lex_less(
        after[i].key@,
        after[j].key@,
    ) by {
        assert(lex_less(before[i].key@, before[j].key@));
    }
    lemma_entries_map(before);
    lemma_entries_map(after);
    let goal = entries_map(before).insert(after[at].key@, after[at].value@);
    assert forall|k: Seq<u8>| entries_map(after).contains_key(k) <==> goal.contains_key(k) by {
        if entries_map(after).contains_key(k) {
            let p = position(after, k);
            assert(before[p].key@ == k);
        }
        if entries_map(before).contains_key(k) {
            let p = position(before, k);
            assert(after[p].key@ == k);
        }
    }
    assert forall|k: Seq<u8>| entries_map(after).contains_key(k) implies entries_map(after)[k]
        == goal[k] by {
        let p = position(after, k);
        if p != at {
            assert(before[p].key@ == k);
            lemma_lex_irreflexive(k);
            if p < at {
                assert(lex_less(before[p].key@, before[at].key@));
            } else {
                assert(lex_less(before[at].key@, before[p].key@));
            }
        }
    }
    assert(entries_map(after) =~= goal);
}

proof fn lemma_inserted(before: Seq<Entry>, after: Seq<Entry>, at: int)
    requires
        ascending(before),
        0 <= at <= before.len(),
        after == before.insert(at, after[at]),
        forall|i: int| 0 <= i < at ==> lex_less(#[trigger] before[i].key@, after[at].key@),
        at < before.len() ==> lex_less(after[at].key@, before[at].key@),
    ensures
        ascending(after),
        entries_map(after) == entries_map(before).insert(after[at].key@, after[at].value@),
{
    let key = after[at].key@;
    assert forall|i: int, j: int| 0 <= i < j < after.len() implies lex_less(
        after[i].key@,
        after[j].key@,
    ) by {
        if j < at {
            assert(lex_less(before[i].key@, before[j].key@));
        } else if j == at {
            assert(lex_less(before[i].key@, key));
        } else if i == at {
            if j - 1 > at {
                assert(lex_less(before[at].key@, before[j - 1].key@));
                lemma_lex_transitive(key, before[at].key@, before[j - 1].key@);
            }
        } else if i < at {
            assert(lex_less(before[i].key@, before[j - 1].key@));
        } else {
            assert(lex_less(before[i - 1].key@, before[j - 1].key@));
        }
    }
    lemma_entries_map(before);
    lemma_entries_map(after);
    let goal = entries_map(before).insert(key, after[at].value@);
    assert forall|k: Seq<u8>| entries_map(after).contains_key(k) <==> goal.contains_key(k) by {
        if entries_map(after).contains_key(k) {
            let p = position(after, k);
            if p < at {
                assert(before[p].key@ == k);
            } else if p > at {
                assert(before[p - 1].key@ == k);
            }
        }
        if entries_map(before).contains_key(k) {
            let p = position(before, k);
            if p < at {
                assert(after[p].key@ == k);
            } else {
                assert(after[p + 1].key@ == k);
            }
        }
        if k == key {
            assert(after[at].key@ == k);
        }
    }
    assert forall|k: Seq<u8>| entries_map(after).contains_key(k) implies entries_map(after)[k]
        == goal[k] by {
        let p = position(after, k);
        lemma_lex_irreflexive(k);
        if p < at {
            assert(before[p].key@ == k);
        } else if p > at {
            assert(before[p - 1].key@ == k);
            assert(lex_less(after[at].key@, after[p].key@));
        }
    }
    assert(entries_map(after) =~= goal);
}

proof fn lemma_removed(before: Seq<Entry>, after: Seq<Entry>, at: int)
    requires
        ascending(before),
        0 <= at < before.len(),
        after == before.remove(at),
    ensures
        ascending(after),
        entries_map(after) == entries_map(before).remove(before[at].key@),
{
    let key = before[at].key@;
    assert forall|i: int, j: int| 0 <= i < j < after.len() implies lex_less(
        after[i].key@,
        after[j].key@,
    ) by {
        let bi = if i < at { i } else { i + 1 };
        let bj = if j < at { j } else { j + 1 };
        assert(lex_less(before[bi].key@, before[bj].key@));
    }
    lemma_entries_map(before);
    lemma_entries_map(after);
    let goal = entries_map(before).remove(key);
    assert forall|k: Seq<u8>| entries_map(after).contains_key(k) <==> goal.contains_key(k) by {
        lemma_lex_irreflexive(k);
        if entries_map(after).contains_key(k) {
            let p = position(after, k);
            let bp = if p < at { p } else { p + 1 };
            assert(before[bp].key@ == k);
            if bp < at {
                assert(lex_less(before[bp].key@, before[at].key@));
            } else {
                assert(lex_less(before[at].key@, before[bp].key@));
            }
        }
        if goal.contains_key(k) {
            let p = position(before, k);
            if p < at {
                assert(after[p].key@ == k);
            } else {
                assert(after[p - 1].key@ == k);
            }
        }
    }
    assert forall|k: Seq<u8>| entries_map(after).contains_key(k) implies entries_map(after)[k]
        == goal[k] by {
        let p = position(after, k);
        let bp = if p < at { p } else { p + 1 };
        assert(after[p].key@ == k);
        assert(after[p] == before[bp]);
        assert(before[bp].key@ == k);
        lemma_lex_irreflexive(k);
        if bp < at {
            assert(lex_less(before[bp].key@, before[at].key@));
        } else {
            assert(lex_less(before[at].key@, before[bp].key@));
        }
    }
    assert(entries_map(after) =~= goal);
}

} // verus!
