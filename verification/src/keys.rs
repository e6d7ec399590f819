//! Document identifiers and the layout of a document in the store.
//!
//! A document `d` owns the key `d/snapshot`, which holds its latest
//! snapshot, and the keys `d/update/<seq>`, one for each logged update,
//! where `<seq>` is the sequence number in twenty digits. A snapshot record
//! is the sequence number of the last update it incorporates, in twenty
//! digits, followed by the serialised state.

use vstd::prelude::*;
use vstd::string::StringSliceAdditionalSpecFns;
use vstd::string::StrSliceExecFns;
use crate::codec::{
    append_bytes, bytes_equal, copy_bytes, decimal, lemma_decimal_shape, lemma_seq_canonical,
    lemma_seq_round_trip, parse_seq, push_decimal, read_seq, starts_with,
};

verus! {

/// The name of a document. Any byte string is a valid name.
#[derive(Clone, Debug)]
pub struct DocId {
    name: Vec<u8>,
}

impl View for DocId {
    type V = Seq<u8>;

    closed spec fn view(&self) -> Seq<u8> {
        self.name@
    }
}

impl DocId {
    /// The document named by the UTF-8 bytes of `name`.
    pub fn new(name: &str) -> (id: DocId)
        ensures
            id@ == name.spec_bytes(),
    {
        DocId { name: name.as_bytes_vec() }
    }

    /// The document named by `name`.
    pub fn from_bytes(name: Vec<u8>) -> (id: DocId)
        ensures
            id@ == name@,
    {
        DocId { name }
    }

    /// The bytes of the name.
    pub fn as_bytes(&self) -> (name: &Vec<u8>)
        ensures
            name@ == self@,
    {
        &self.name
    }

    /// Whether `self` and `other` name the same document.
    pub fn same(&self, other: &DocId) -> (r: bool)
        ensures
            r == (self@ == other@),
    {
        bytes_equal(self.name.as_slice(), other.name.as_slice())
    }

    /// A copy of this identifier.
    pub fn duplicate(&self) -> (id: DocId)
        ensures
            id@ == self@,
    {
        DocId { name: copy_bytes(&self.name) }
    }
}

/// Distinct names give distinct documents.
pub proof fn lemma_doc_id_of_name(a: &str, b: &str)
    requires
        a@ != b@,
    ensures
        a.spec_bytes() != b.spec_bytes(),
{
    vstd::utf8::encode_utf8_decode_utf8(a@);
    vstd::utf8::encode_utf8_decode_utf8(b@);
}

/// The bytes of `/snapshot`.
pub open spec fn snapshot_tag() -> Seq<u8> {
    seq![47u8, 115u8, 110u8, 97u8, 112u8, 115u8, 104u8, 111u8, 116u8]
}

/// The bytes of `/update/`.
pub open spec fn update_tag() -> Seq<u8> {
    seq![47u8, 117u8, 112u8, 100u8, 97u8, 116u8, 101u8, 47u8]
}

/// The key of the snapshot of `doc`.
pub open spec fn snapshot_key(doc: Seq<u8>) -> Seq<u8> {
    doc + snapshot_tag()
}

/// What the keys of the logged updates of `doc` begin with.
pub open spec fn update_prefix(doc: Seq<u8>) -> Seq<u8> {
    doc + update_tag()
}

/// The key of the update of `doc` with sequence number `seq`.
pub open spec fn update_key(doc: Seq<u8>, seq: nat) -> Seq<u8> {
    update_prefix(doc) + decimal(seq, 20)
}

/// `key` belongs to `doc`.
pub open spec fn owned_by(doc: Seq<u8>, key: Seq<u8>) -> bool {
    key == snapshot_key(doc) || exists|seq: nat| seq <= u64::MAX && key == update_key(doc, seq)
}

/// The sequence number in a key listed under `prefix`: `key` is `prefix`
/// followed by a sequence number, or it is no update key.
pub open spec fn key_seq(prefix: Seq<u8>, key: Seq<u8>) -> Option<nat> {
    if key.len() == prefix.len() + 20 && starts_with(key, prefix) {
        parse_seq(key.subrange(prefix.len() as int, key.len() as int))
    } else {
        None
    }
}

/// The record that holds a snapshot.
pub open spec fn snapshot_record(baseline: nat, state: Seq<u8>) -> Seq<u8> {
    decimal(baseline, 20) + state
}

/// The baseline and the state in a snapshot record, if it is well formed.
pub open spec fn parse_snapshot(record: Seq<u8>) -> Option<(nat, Seq<u8>)> {
    if record.len() >= 20 && parse_seq(record.subrange(0, 20)) is Some {
        Some((parse_seq(record.subrange(0, 20))->0, record.subrange(20, record.len() as int)))
    } else {
        None
    }
}

/// A key under the update prefix that carries a sequence number is the
/// update key of that number, and the other way round.
pub proof fn lemma_key_seq(doc: Seq<u8>, key: Seq<u8>, seq: nat)
    ensures
        key_seq(update_prefix(doc), key) == Some(seq) <==> seq <= u64::MAX && key == update_key(
            doc,
            seq,
        ),
{
    let prefix = update_prefix(doc);
    if seq <= u64::MAX && key == update_key(doc, seq) {
        lemma_seq_round_trip(seq);
        lemma_decimal_shape(seq, 20);
        assert(key.subrange(0, prefix.len() as int) =~= prefix);
        assert(key.subrange(prefix.len() as int, key.len() as int) =~= decimal(seq, 20));
    }
    if key_seq(prefix, key) == Some(seq) {
        let field = key.subrange(prefix.len() as int, key.len() as int);
        lemma_seq_canonical(field);
        assert(key =~= key.subrange(0, prefix.len() as int) + field);
    }
}

/// A snapshot record reads back as what was written.
pub proof fn lemma_snapshot_round_trip(baseline: nat, state: Seq<u8>)
    requires
        baseline <= u64::MAX,
    ensures
        parse_snapshot(snapshot_record(baseline, state)) == Some((baseline, state)),
{
    let record = snapshot_record(baseline, state);
    lemma_seq_round_trip(baseline);
    lemma_decimal_shape(baseline, 20);
    assert(record.subrange(0, 20) =~= decimal(baseline, 20));
    assert(record.subrange(20, record.len() as int) =~= state);
}

/// No two documents share a key, and no document's snapshot key is one of
/// its update keys.
pub proof fn lemma_keys_apart(a: Seq<u8>, b: Seq<u8>, s: nat, t: nat)
    requires
        s <= u64::MAX,
        t <= u64::MAX,
    ensures
        snapshot_key(a) == snapshot_key(b) ==> a == b,
        update_key(a, s) == update_key(b, t) ==> a == b && s == t,
        snapshot_key(a) != update_key(b, t),
{
    lemma_decimal_shape(s, 20);
    lemma_decimal_shape(t, 20);
    if snapshot_key(a) == snapshot_key(b) {
        assert(snapshot_key(a).len() == a.len() + 9);
        assert(snapshot_key(b).len() == b.len() + 9);
        assert(a =~= snapshot_key(a).subrange(0, a.len() as int));
        assert(b =~= snapshot_key(b).subrange(0, b.len() as int));
    }
    if update_key(a, s) == update_key(b, t) {
        let k = update_key(a, s);
        assert(k.len() == a.len() + 28);
        assert(update_key(b, t).len() == b.len() + 28);
        assert(a =~= update_key(a, s).subrange(0, a.len() as int));
        assert(b =~= update_key(b, t).subrange(0, b.len() as int));
        assert(decimal(s, 20) =~= update_key(a, s).subrange(a.len() + 8 as int, a.len() + 28 as int));
        assert(decimal(t, 20) =~= update_key(b, t).subrange(b.len() + 8 as int, b.len() + 28 as int));
        lemma_seq_round_trip(s);
        lemma_seq_round_trip(t);
    }
    if snapshot_key(a) == update_key(b, t) {
        let k = snapshot_key(a);
        assert(k[k.len() - 1] == 116u8);
        let u = update_key(b, t);
        assert(u[u.len() - 1] == decimal(t, 20)[19]);
        assert(crate::codec::is_digit(decimal(t, 20)[19]));
    }
}

/// The key of the snapshot of `doc`.
pub fn snapshot_key_of(doc: &DocId) -> (key: Vec<u8>)
    ensures
        key@ == snapshot_key(doc@),
{
    let mut key = copy_bytes(&doc.name);
    let tag: Vec<u8> = vec![47u8, 115u8, 110u8, 97u8, 112u8, 115u8, 104u8, 111u8, 116u8];
    assert(tag@ =~= snapshot_tag());
    append_bytes(&mut key, &tag);
    key
}

/// What the keys of the logged updates of `doc` begin with.
pub fn update_prefix_of(doc: &DocId) -> (prefix: Vec<u8>)
    ensures
        prefix@ == update_prefix(doc@),
{
    let mut prefix = copy_bytes(&doc.name);
    let tag: Vec<u8> = vec![47u8, 117u8, 112u8, 100u8, 97u8, 116u8, 101u8, 47u8];
    assert(tag@ =~= update_tag());
    append_bytes(&mut prefix, &tag);
    prefix
}

/// The key of the update of `doc` with sequence number `seq`.
pub fn update_key_of(doc: &DocId, seq: u64) -> (key: Vec<u8>)
    ensures
        key@ == update_key(doc@, seq as nat),
{
    let mut key = update_prefix_of(doc);
    push_decimal(&mut key, seq, 20);
    key
}

/// The sequence number in `key`, where `key` is `prefix` followed by one.
pub fn seq_of_key(prefix: &Vec<u8>, key: &Vec<u8>) -> (r: Option<u64>)
    ensures
        match r {
            Some(seq) => key_seq(prefix@, key@) == Some(seq as nat),
            None => key_seq(prefix@, key@) is None,
        },
{
    let key_len: usize = key.len();
    let prefix_len: usize = prefix.len();
    if prefix_len > usize::MAX - 20 || key_len != prefix_len + 20 {
        return None;
    }
    if !crate::codec::has_prefix(key.as_slice(), prefix.as_slice()) {
        return None;
    }
    read_seq(key.as_slice(), prefix.len())
}

/// The record that holds a snapshot with the given baseline and state.
pub fn encode_snapshot(baseline: u64, state: &Vec<u8>) -> (record: Vec<u8>)
    ensures
        record@ == snapshot_record(baseline as nat, state@),
{
    let mut record: Vec<u8> = Vec::new();
    push_decimal(&mut record, baseline, 20);
    append_bytes(&mut record, state);
    record
}

/// The baseline and the state in a snapshot record, if it is well formed.
pub fn decode_snapshot(record: &Vec<u8>) -> (r: Option<(u64, Vec<u8>)>)
    ensures
        match r {
            Some((baseline, state)) => parse_snapshot(record@) == Some((baseline as nat, state@)),
            None => parse_snapshot(record@) is None,
        },
{
    if record.len() < 20 {
        return None;
    }
    match read_seq(record.as_slice(), 0) {
        None => None,
        Some(baseline) => {
            let state = vstd::slice::slice_to_vec(
                vstd::slice::slice_subrange(record.as_slice(), 20, record.len()),
            );
            Some((baseline, state))
        },
    }
}

} // verus!
