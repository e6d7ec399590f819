//! What the store says a document is.
//!
//! A document is kept as a snapshot and a log. The snapshot holds a state
//! and its baseline, the sequence number of the last update merged into
//! that state. The log holds the updates accepted since, one record to the
//! sequence number, without gaps. Records at or below the baseline are
//! superseded by the snapshot and count for nothing.
//!
//! Merging is not done here: what merges updates is the document library,
//! outside this crate. A cold load therefore yields the state of the
//! snapshot and, as pending, the logged updates above the baseline, in
//! order. A resident document may be ahead of the snapshot: its state then
//! incorporates more of the log, and only the rest is pending. This module
//! defines both relations and proves how each write of the engine keeps
//! them.

use vstd::prelude::*;
use crate::keys::{
    lemma_keys_apart, lemma_snapshot_round_trip, owned_by, parse_snapshot, snapshot_key,
    snapshot_record, update_key,
};

verus! {

/// A document: a state, the sequence number of the last update merged into
/// it, and the updates accepted after that one which are yet to be merged,
/// oldest first.
pub struct Image {
    pub state: Seq<u8>,
    pub merged_seq: nat,
    pub pending: Seq<Seq<u8>>,
}

impl Image {
    /// The sequence number of the last update accepted.
    pub open spec fn last_seq(self) -> nat {
        self.merged_seq + self.pending.len()
    }
}

/// The store holds a logged update of `doc` with sequence number `seq`.
pub open spec fn has_update(contents: Map<Seq<u8>, Seq<u8>>, doc: Seq<u8>, seq: nat) -> bool {
    seq <= u64::MAX && contents.contains_key(update_key(doc, seq))
}

/// The baseline and state to start from: those of the snapshot, or zero and
/// the empty state where there is no snapshot. Nothing where the snapshot
/// record is malformed.
pub open spec fn base_of(contents: Map<Seq<u8>, Seq<u8>>, doc: Seq<u8>) -> Option<
    (nat, Seq<u8>),
> {
    if contents.contains_key(snapshot_key(doc)) {
        parse_snapshot(contents[snapshot_key(doc)])
    } else {
        Some((0nat, Seq::<u8>::empty()))
    }
}

/// `top` is the highest sequence number in the log of `doc`, or `baseline`
/// where the log holds nothing above it.
pub open spec fn is_top(
    contents: Map<Seq<u8>, Seq<u8>>,
    doc: Seq<u8>,
    baseline: nat,
    top: nat,
) -> bool {
    &&& baseline <= top
    &&& top > baseline ==> has_update(contents, doc, top)
    &&& forall|s: nat| s > top ==> !#[trigger] has_update(contents, doc, s)
}

/// The log of `doc` holds every sequence number above `from` up to `to`.
pub open spec fn logged(contents: Map<Seq<u8>, Seq<u8>>, doc: Seq<u8>, from: nat, to: nat) -> bool {
    forall|s: nat| from < s <= to ==> #[trigger] has_update(contents, doc, s)
}

/// The logged updates of `doc` numbered above `from` up to `to`, in order.
pub open spec fn tail(contents: Map<Seq<u8>, Seq<u8>>, doc: Seq<u8>, from: nat, to: nat) -> Seq<
    Seq<u8>,
> {
    Seq::new((to - from) as nat, |i: int| contents[update_key(doc, (from + 1 + i) as nat)])
}

/// The store reconstructs the resident document `image`: its log has no
/// gap and ends with the document's last update, what the document has yet
/// to merge is what is logged above its state, and a document that is not
/// ahead of the snapshot has the state of the snapshot.
pub open spec fn durable(contents: Map<Seq<u8>, Seq<u8>>, doc: Seq<u8>, image: Image) -> bool {
    &&& base_of(contents, doc) matches Some((baseline, base))
    &&& baseline <= u64::MAX
    &&& baseline <= image.merged_seq
    &&& is_top(contents, doc, baseline, image.last_seq())
    &&& logged(contents, doc, baseline, image.last_seq())
    &&& image.pending == tail(contents, doc, image.merged_seq, image.last_seq())
    &&& image.merged_seq == baseline ==> image.state == base
}

/// A cold load of `doc` from `contents` yields `image`: the state and the
/// baseline of the snapshot, and the whole log above the baseline as
/// pending.
pub open spec fn cold(contents: Map<Seq<u8>, Seq<u8>>, doc: Seq<u8>, image: Image) -> bool {
    &&& durable(contents, doc, image)
    &&& base_of(contents, doc) matches Some((baseline, _))
    &&& image.merged_seq == baseline
}

/// A cold load of `doc` from `contents` succeeds.
pub open spec fn loadable(contents: Map<Seq<u8>, Seq<u8>>, doc: Seq<u8>) -> bool {
    exists|image: Image| cold(contents, doc, image)
}

/// The two stores agree on every key of `doc`.
pub open spec fn same_for(
    a: Map<Seq<u8>, Seq<u8>>,
    b: Map<Seq<u8>, Seq<u8>>,
    doc: Seq<u8>,
) -> bool {
    &&& a.contains_key(snapshot_key(doc)) == b.contains_key(snapshot_key(doc))
    &&& a.contains_key(snapshot_key(doc)) ==> a[snapshot_key(doc)] == b[snapshot_key(doc)]
    &&& forall|s: nat|
        s <= u64::MAX ==> a.contains_key(#[trigger] update_key(doc, s)) == b.contains_key(
            update_key(doc, s),
        )
    &&& forall|s: nat|
        s <= u64::MAX && a.contains_key(#[trigger] update_key(doc, s)) ==> a[update_key(doc, s)]
            == b[update_key(doc, s)]
}

/// The two stores agree on `key`.
pub open spec fn agree_at(a: Map<Seq<u8>, Seq<u8>>, b: Map<Seq<u8>, Seq<u8>>, key: Seq<u8>) -> bool {
    a.contains_key(key) == b.contains_key(key) && (a.contains_key(key) ==> a[key] == b[key])
}

/// The two stores differ at most on keys of `doc`.
pub open spec fn differ_within(
    a: Map<Seq<u8>, Seq<u8>>,
    b: Map<Seq<u8>, Seq<u8>>,
    doc: Seq<u8>,
) -> bool {
    forall|k: Seq<u8>| !owned_by(doc, k) ==> #[trigger] agree_at(a, b, k)
}

pub proof fn lemma_top_unique(
    contents: Map<Seq<u8>, Seq<u8>>,
    doc: Seq<u8>,
    baseline: nat,
    t1: nat,
    t2: nat,
)
    requires
        is_top(contents, doc, baseline, t1),
        is_top(contents, doc, baseline, t2),
    ensures
        t1 == t2,
{
    if t1 < t2 {
        assert(has_update(contents, doc, t2));
    } else if t2 < t1 {
        assert(has_update(contents, doc, t1));
    }
}


/// A store determines what a cold load yields.
pub proof fn lemma_cold_unique(
    contents: Map<Seq<u8>, Seq<u8>>,
    doc: Seq<u8>,
    a: Image,
    b: Image,
)
    requires
        cold(contents, doc, a),
        cold(contents, doc, b),
    ensures
        a == b,
{
    let (baseline, base) = base_of(contents, doc)->0;
    lemma_top_unique(contents, doc, baseline, a.last_seq(), b.last_seq());
    assert(a.pending =~= b.pending);
}

/// A document that the store reconstructs has no sequence number beyond
/// the last `u64`.
pub proof fn lemma_durable_bounded(contents: Map<Seq<u8>, Seq<u8>>, doc: Seq<u8>, image: Image)
    requires
        durable(contents, doc, image),
    ensures
        image.last_seq() <= u64::MAX,
{
    let (baseline, base) = base_of(contents, doc)->0;
    if image.last_seq() > baseline {
        assert(has_update(contents, doc, image.last_seq()));
    }
}

/// What the store makes of a document depends on the keys of that document
/// alone.
pub proof fn lemma_durable_same(
    a: Map<Seq<u8>, Seq<u8>>,
    b: Map<Seq<u8>, Seq<u8>>,
    doc: Seq<u8>,
    image: Image,
)
    requires
        same_for(a, b, doc),
    ensures
        base_of(a, doc) == base_of(b, doc),
        forall|s: nat| #[trigger] has_update(a, doc, s) == has_update(b, doc, s),
        durable(a, doc, image) == durable(b, doc, image),
        cold(a, doc, image) == cold(b, doc, image),
{
    assert(base_of(a, doc) == base_of(b, doc));
    assert forall|s: nat|
        #![trigger has_update(a, doc, s)]
        #![trigger has_update(b, doc, s)]
        has_update(a, doc, s) == has_update(b, doc, s) by {
        if s <= u64::MAX {
            assert(a.contains_key(update_key(doc, s)) == b.contains_key(update_key(doc, s)));
        }
    }
    if base_of(a, doc) is Some {
        let (baseline, base) = base_of(a, doc)->0;
        let from = image.merged_seq;
        let to = image.last_seq();
        if baseline <= from && (logged(a, doc, baseline, to) || logged(b, doc, baseline, to)) {
            assert forall|i: int| 0 <= i < to - from implies tail(a, doc, from, to)[i] == tail(
                b,
                doc,
                from,
                to,
            )[i] by {
                let s = (from + 1 + i) as nat;
                assert(has_update(a, doc, s) || has_update(b, doc, s));
                assert(a.contains_key(update_key(doc, s)));
            }
            assert(tail(a, doc, from, to) =~= tail(b, doc, from, to));
        }
    }
}

/// A key of one document is no key of another.
pub proof fn lemma_owner_unique(a: Seq<u8>, b: Seq<u8>, key: Seq<u8>)
    requires
        owned_by(a, key),
        owned_by(b, key),
    ensures
        a == b,
{
    if key == snapshot_key(a) {
        if key == snapshot_key(b) {
            lemma_keys_apart(a, b, 0, 0);
        } else {
            let t = choose|t: nat| t <= u64::MAX && key == update_key(b, t);
            lemma_keys_apart(a, b, 0, t);
        }
    } else {
        let s = choose|s: nat| s <= u64::MAX && key == update_key(a, s);
        if key == snapshot_key(b) {
            lemma_keys_apart(b, a, 0, s);
        } else {
            let t = choose|t: nat| t <= u64::MAX && key == update_key(b, t);
            lemma_keys_apart(a, b, s, t);
        }
    }
}

/// Stores that differ only on keys of one document agree on every other.
pub proof fn lemma_differ_same(
    a: Map<Seq<u8>, Seq<u8>>,
    b: Map<Seq<u8>, Seq<u8>>,
    doc: Seq<u8>,
    other: Seq<u8>,
)
    requires
        differ_within(a, b, doc),
        other != doc,
    ensures
        same_for(a, b, other),
{
    let sk = snapshot_key(other);
    assert(owned_by(other, sk));
    if owned_by(doc, sk) {
        lemma_owner_unique(doc, other, sk);
    }
    assert(agree_at(a, b, sk));
    assert forall|s: nat| s <= u64::MAX implies a.contains_key(#[trigger] update_key(other, s))
        == b.contains_key(update_key(other, s)) && (a.contains_key(update_key(other, s))
        ==> a[update_key(other, s)] == b[update_key(other, s)]) by {
        let k = update_key(other, s);
        assert(owned_by(other, k));
        if owned_by(doc, k) {
            lemma_owner_unique(doc, other, k);
        }
        assert(agree_at(a, b, k));
    }
}

/// Differing within a document is reflexive and transitive.
pub proof fn lemma_differ_chain(
    a: Map<Seq<u8>, Seq<u8>>,
    b: Map<Seq<u8>, Seq<u8>>,
    c: Map<Seq<u8>, Seq<u8>>,
    doc: Seq<u8>,
)
    requires
        differ_within(a, b, doc),
        differ_within(b, c, doc),
    ensures
        differ_within(a, c, doc),
{
    assert forall|k: Seq<u8>| !owned_by(doc, k) implies #[trigger] agree_at(a, c, k) by {
        assert(agree_at(a, b, k));
        assert(agree_at(b, c, k));
    }
}


/// Logging the next update of a document that has nothing pending, and
/// taking `merged` as its state, keeps the document reconstructible.
pub proof fn lemma_append(
    contents: Map<Seq<u8>, Seq<u8>>,
    doc: Seq<u8>,
    image: Image,
    update: Seq<u8>,
    merged: Seq<u8>,
)
    requires
        durable(contents, doc, image),
        image.pending.len() == 0,
        image.merged_seq < u64::MAX,
    ensures
        durable(
            contents.insert(update_key(doc, image.merged_seq + 1), update),
            doc,
            Image { state: merged, merged_seq: image.merged_seq + 1, pending: Seq::empty() },
        ),
        differ_within(contents, contents.insert(update_key(doc, image.merged_seq + 1), update), doc),
{
    let seq = image.merged_seq + 1;
    let key = update_key(doc, seq);
    let after = contents.insert(key, update);
    let (baseline, base) = base_of(contents, doc)->0;
    lemma_keys_apart(doc, doc, 0, seq);
    assert(base_of(after, doc) == base_of(contents, doc));
    assert forall|s: nat| s != seq implies #[trigger] has_update(after, doc, s) == has_update(
        contents,
        doc,
        s,
    ) by {
        if s <= u64::MAX {
            lemma_keys_apart(doc, doc, s, seq);
        }
    }
    assert(has_update(after, doc, seq));
    assert(is_top(after, doc, baseline, seq)) by {
        assert forall|s: nat| s > seq implies !#[trigger] has_update(after, doc, s) by {
            assert(!has_update(contents, doc, s));
        }
    }
    assert(logged(after, doc, baseline, seq)) by {
        assert forall|s: nat| baseline < s <= seq implies #[trigger] has_update(after, doc, s) by {
            if s != seq {
                assert(has_update(contents, doc, s));
            }
        }
    }
    assert(tail(after, doc, seq, seq) =~= Seq::<Seq<u8>>::empty());
    assert(owned_by(doc, key));
    assert forall|k: Seq<u8>| !owned_by(doc, k) implies #[trigger] agree_at(contents, after, k) by {}
}

/// Merging the first pending update into the state keeps the document
/// reconstructible; the store is not touched.
pub proof fn lemma_absorb(
    contents: Map<Seq<u8>, Seq<u8>>,
    doc: Seq<u8>,
    image: Image,
    merged: Seq<u8>,
)
    requires
        durable(contents, doc, image),
        image.pending.len() > 0,
    ensures
        durable(
            contents,
            doc,
            Image {
                state: merged,
                merged_seq: image.merged_seq + 1,
                pending: image.pending.drop_first(),
            },
        ),
{
    let next = Image {
        state: merged,
        merged_seq: image.merged_seq + 1,
        pending: image.pending.drop_first(),
    };
    assert(next.last_seq() == image.last_seq());
    assert(next.pending =~= tail(contents, doc, next.merged_seq, next.last_seq()));
}

/// Writing a document's state as its snapshot keeps the document
/// reconstructible, and makes it what a cold load yields, whether or not
/// the updates that the snapshot supersedes are still logged.
pub proof fn lemma_snapshot(contents: Map<Seq<u8>, Seq<u8>>, doc: Seq<u8>, image: Image)
    requires
        durable(contents, doc, image),
    ensures
        image.merged_seq <= u64::MAX,
        cold(
            contents.insert(snapshot_key(doc), snapshot_record(image.merged_seq, image.state)),
            doc,
            image,
        ),
        base_of(
            contents.insert(snapshot_key(doc), snapshot_record(image.merged_seq, image.state)),
            doc,
        ) == Some((image.merged_seq, image.state)),
        differ_within(
            contents,
            contents.insert(snapshot_key(doc), snapshot_record(image.merged_seq, image.state)),
            doc,
        ),
{
    lemma_durable_bounded(contents, doc, image);
    let key = snapshot_key(doc);
    let after = contents.insert(key, snapshot_record(image.merged_seq, image.state));
    lemma_snapshot_round_trip(image.merged_seq, image.state);
    assert forall|s: nat|
        #![trigger has_update(after, doc, s)]
        has_update(after, doc, s) == has_update(contents, doc, s) && (has_update(contents, doc, s)
            ==> after[update_key(doc, s)] == contents[update_key(doc, s)]) by {
        if s <= u64::MAX {
            lemma_keys_apart(doc, doc, s, s);
        }
    }
    let to = image.last_seq();
    assert(is_top(after, doc, image.merged_seq, to)) by {
        if to > image.merged_seq {
            assert(has_update(contents, doc, to));
            assert(has_update(after, doc, to));
        }
        assert forall|s: nat| s > to implies !#[trigger] has_update(after, doc, s) by {
            assert(!has_update(contents, doc, s));
        }
    }
    assert(logged(after, doc, image.merged_seq, to)) by {
        assert forall|s: nat| image.merged_seq < s <= to implies #[trigger] has_update(
            after,
            doc,
            s,
        ) by {
            assert(has_update(contents, doc, s));
        }
    }
    assert(tail(after, doc, image.merged_seq, to) =~= tail(contents, doc, image.merged_seq, to)) by {
        assert forall|i: int| 0 <= i < to - image.merged_seq implies tail(
            after,
            doc,
            image.merged_seq,
            to,
        )[i] == tail(contents, doc, image.merged_seq, to)[i] by {
            let s = (image.merged_seq + 1 + i) as nat;
            assert(has_update(contents, doc, s));
            assert(has_update(after, doc, s));
        }
    }
    assert(owned_by(doc, key));
    assert forall|k: Seq<u8>| !owned_by(doc, k) implies #[trigger] agree_at(contents, after, k) by {}
}

/// Removing a logged update that the snapshot supersedes changes nothing
/// of what the store makes of the document.
pub proof fn lemma_prune(contents: Map<Seq<u8>, Seq<u8>>, doc: Seq<u8>, image: Image, seq: nat)
    requires
        durable(contents, doc, image),
        seq <= u64::MAX,
        base_of(contents, doc) matches Some((baseline, _)) && seq <= baseline,
    ensures
        durable(contents.remove(update_key(doc, seq)), doc, image),
        cold(contents, doc, image) ==> cold(contents.remove(update_key(doc, seq)), doc, image),
        base_of(contents.remove(update_key(doc, seq)), doc) == base_of(contents, doc),
        differ_within(contents, contents.remove(update_key(doc, seq)), doc),
{
    let key = update_key(doc, seq);
    let after = contents.remove(key);
    let (baseline, base) = base_of(contents, doc)->0;
    lemma_keys_apart(doc, doc, seq, seq);
    assert(base_of(after, doc) == base_of(contents, doc));
    assert forall|s: nat| s != seq implies #[trigger] has_update(after, doc, s) == has_update(
        contents,
        doc,
        s,
    ) && (has_update(contents, doc, s) ==> after[update_key(doc, s)] == contents[update_key(
        doc,
        s,
    )]) by {
        if s <= u64::MAX {
            lemma_keys_apart(doc, doc, s, seq);
        }
    }
    let to = image.last_seq();
    assert(is_top(after, doc, baseline, to)) by {
        if to > baseline {
            assert(has_update(contents, doc, to));
            assert(has_update(after, doc, to));
        }
        assert forall|s: nat| s > to implies !#[trigger] has_update(after, doc, s) by {
            assert(!has_update(contents, doc, s));
        }
    }
    assert(logged(after, doc, baseline, to)) by {
        assert forall|s: nat| baseline < s <= to implies #[trigger] has_update(after, doc, s) by {
            assert(has_update(contents, doc, s));
        }
    }
    assert(tail(after, doc, image.merged_seq, to) =~= tail(contents, doc, image.merged_seq, to)) by {
        assert forall|i: int| 0 <= i < to - image.merged_seq implies tail(
            after,
            doc,
            image.merged_seq,
            to,
        )[i] == tail(contents, doc, image.merged_seq, to)[i] by {
            let s = (image.merged_seq + 1 + i) as nat;
            assert(has_update(contents, doc, s));
            assert(has_update(after, doc, s));
        }
    }
    assert(owned_by(doc, key));
    assert forall|k: Seq<u8>| !owned_by(doc, k) implies #[trigger] agree_at(contents, after, k) by {}
}

/// The store without the logged updates of `doc` numbered in `removed`.
pub open spec fn without_updates(
    contents: Map<Seq<u8>, Seq<u8>>,
    doc: Seq<u8>,
    removed: Set<nat>,
) -> Map<Seq<u8>, Seq<u8>> {
    Map::new(
        |k: Seq<u8>|
            contents.contains_key(k) && !(exists|s: nat|
                removed.contains(s) && s <= u64::MAX && k == update_key(doc, s)),
        |k: Seq<u8>| contents[k],
    )
}


/// Round trip through the store. Once a checkpoint has written the state of
/// a document as its snapshot, a cold load succeeds and yields that
/// document and no other: the same state, the same sequence numbers and the
/// same pending updates.
pub proof fn lemma_checkpoint_round_trip(
    saved: Map<Seq<u8>, Seq<u8>>,
    doc: Seq<u8>,
    image: Image,
    loaded: Image,
)
    requires
        durable(saved, doc, image),
        base_of(saved, doc) == Some((image.merged_seq, image.state)),
    ensures
        cold(saved, doc, image),
        cold(saved, doc, loaded) ==> loaded == image,
{
    if cold(saved, doc, loaded) {
        lemma_cold_unique(saved, doc, image, loaded);
    }
}

/// A crash after the snapshot is written. The store then holds the new
/// snapshot and the log without some of the records that the snapshot
/// supersedes, any of them. It still yields the document on a cold load:
/// nothing is lost and nothing is there twice.
pub proof fn lemma_crash_after_snapshot(
    before: Map<Seq<u8>, Seq<u8>>,
    doc: Seq<u8>,
    image: Image,
    removed: Set<nat>,
)
    requires
        durable(before, doc, image),
        forall|s: nat| removed.contains(s) ==> s <= image.merged_seq,
    ensures
        cold(
            without_updates(
                before.insert(snapshot_key(doc), snapshot_record(image.merged_seq, image.state)),
                doc,
                removed,
            ),
            doc,
            image,
        ),
{
    let saved = before.insert(snapshot_key(doc), snapshot_record(image.merged_seq, image.state));
    let crashed = without_updates(saved, doc, removed);
    lemma_snapshot(before, doc, image);
    assert(crashed.contains_key(snapshot_key(doc))) by {
        assert forall|s: nat| s <= u64::MAX implies snapshot_key(doc) != update_key(doc, s) by {
            lemma_keys_apart(doc, doc, s, s);
        }
    }
    assert(base_of(crashed, doc) == Some((image.merged_seq, image.state)));
    let to = image.last_seq();
    assert forall|s: nat| s > image.merged_seq implies #[trigger] has_update(crashed, doc, s)
        == has_update(saved, doc, s) && (has_update(saved, doc, s) ==> crashed[update_key(doc, s)]
        == saved[update_key(doc, s)]) by {
        if has_update(saved, doc, s) {
            assert forall|r: nat| removed.contains(r) && r <= u64::MAX implies update_key(doc, s)
                != update_key(doc, r) by {
                lemma_keys_apart(doc, doc, s, r);
            }
        }
    }
    assert(is_top(crashed, doc, image.merged_seq, to)) by {
        if to > image.merged_seq {
            assert(has_update(saved, doc, to));
            assert(has_update(crashed, doc, to));
        }
        assert forall|s: nat| s > to implies !#[trigger] has_update(crashed, doc, s) by {
            assert(!has_update(saved, doc, s));
        }
    }
    assert(logged(crashed, doc, image.merged_seq, to)) by {
        assert forall|s: nat| image.merged_seq < s <= to implies #[trigger] has_update(
            crashed,
            doc,
            s,
        ) by {
            assert(has_update(saved, doc, s));
        }
    }
    assert(tail(crashed, doc, image.merged_seq, to) =~= tail(saved, doc, image.merged_seq, to)) by {
        assert forall|i: int| 0 <= i < to - image.merged_seq implies tail(
            crashed,
            doc,
            image.merged_seq,
            to,
        )[i] == tail(saved, doc, image.merged_seq, to)[i] by {
            let s = (image.merged_seq + 1 + i) as nat;
            assert(has_update(saved, doc, s));
            assert(has_update(crashed, doc, s));
        }
    }
}

/// A crash before the snapshot is written. A write takes effect as a whole
/// or not at all, so the store holds the old snapshot and the whole log. A
/// cold load succeeds, and yields the state of the old snapshot and, as
/// pending, every update logged above it, in order: the updates that the
/// document had merged since the snapshot, followed by those it had
/// pending. Nothing that was accepted is missing and nothing is there
/// twice. A document that was not ahead of the snapshot is yielded as it
/// was.
pub proof fn lemma_crash_before_snapshot(
    before: Map<Seq<u8>, Seq<u8>>,
    doc: Seq<u8>,
    image: Image,
)
    requires
        durable(before, doc, image),
    ensures
        ({
            let (baseline, base) = base_of(before, doc)->0;
            let loaded = Image {
                state: base,
                merged_seq: baseline,
                pending: tail(before, doc, baseline, image.last_seq()),
            };
            &&& base_of(before, doc) is Some
            &&& cold(before, doc, loaded)
            &&& loaded.last_seq() == image.last_seq()
            &&& loaded.pending.subrange(image.merged_seq - baseline, loaded.pending.len() as int)
                == image.pending
            &&& image.merged_seq == baseline ==> loaded == image
        }),
{
    let (baseline, base) = base_of(before, doc)->0;
    let loaded = Image {
        state: base,
        merged_seq: baseline,
        pending: tail(before, doc, baseline, image.last_seq()),
    };
    assert(loaded.last_seq() == image.last_seq());
    assert(loaded.pending.subrange(image.merged_seq - baseline, loaded.pending.len() as int)
        =~= image.pending);
    if image.merged_seq == baseline {
        assert(loaded.pending =~= image.pending);
    }
}

/// Eviction round trip. The store that an eviction leaves yields, on a
/// cold load, the document as it was when it was evicted, and no other.
pub proof fn lemma_evict_round_trip(
    left: Map<Seq<u8>, Seq<u8>>,
    doc: Seq<u8>,
    evicted: Image,
    loaded: Image,
)
    requires
        cold(left, doc, evicted),
    ensures
        loadable(left, doc),
        cold(left, doc, loaded) ==> loaded == evicted,
{
    if cold(left, doc, loaded) {
        lemma_cold_unique(left, doc, evicted, loaded);
    }
}

/// The log of a document that the store reconstructs has no gap: above the
/// baseline of the snapshot it holds every sequence number up to the last,
/// and none beyond.
pub proof fn lemma_log_gapless(
    contents: Map<Seq<u8>, Seq<u8>>,
    doc: Seq<u8>,
    image: Image,
    seq: nat,
)
    requires
        durable(contents, doc, image),
    ensures
        base_of(contents, doc) matches Some((baseline, _)) && (baseline < seq <= image.last_seq()
            ==> has_update(contents, doc, seq)) && (seq > image.last_seq() ==> !has_update(
            contents,
            doc,
            seq,
        )),
{
}

} // verus!
