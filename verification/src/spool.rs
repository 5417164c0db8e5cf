//! Spool storage: the durable owner of every message that is not yet
//! delivered or bounced.
//!
//! The storage keeps two images of its entries. The live image is what the
//! process sees. The durable image is what survives a crash: what the
//! backend has confirmed to hold. With synchronous flushing the two always
//! agree; without it the durable image follows the live one at each flush.
//! A deletion always reaches both at once, so that a record that reached a
//! terminal state cannot come back after a crash.
//!
//! The backend does its writes outside of this module. Every operation that
//! needs one takes the backend's report on it and changes nothing if the
//! write failed.

use crate::entry::{
    copy_bytes, decode_entry, decoded, encodable, encode_entry, encoded, entry_views,
    lemma_decode_encode, lemma_encode_decode, EntryView, SpoolEntry,
};
use crate::policy::SpoolInstruction;
use crate::record::{views, FailureClass, MessageRecord, RecordState, RecordView};
use crate::spool_params::{DefineSpoolParams, SpoolKind};
use vstd::prelude::*;

verus! {

/// The backend's report on the write that carries an operation.
#[derive(Clone, Copy, Debug, PartialEq, Eq, Structural)]
pub enum IoStatus {
    /// The write was carried out.
    Done,
    /// The write failed.
    Failed,
}

/// Why an operation on the spool failed.
#[derive(Clone, Copy, Debug, PartialEq, Eq, Structural)]
pub enum SpoolError {
    /// The spool holds no entry with the identifier.
    NotFound,
    /// The backend reported a failed write.
    Io,
    /// The record is already delivered or bounced.
    Terminal,
    /// No identifier is left to give out.
    Exhausted,
}

/// The part of an entry that a retry changes.
#[derive(Clone, Copy, Debug, PartialEq, Eq, Structural)]
pub struct RetryState {
    pub attempts: u32,
    pub due: u64,
    pub last_error: Option<FailureClass>,
}

/// Whether some entry of the sequence has the identifier.
pub open spec fn has_entry(entries: Seq<EntryView>, id: u64) -> bool {
    exists|i: int| 0 <= i < entries.len() && (#[trigger] entries[i]).record.id == id
}

/// The place of the entry with the identifier in a sequence that holds it.
pub open spec fn entry_index(entries: Seq<EntryView>, id: u64) -> int {
    choose|i: int| 0 <= i < entries.len() && (#[trigger] entries[i]).record.id == id
}

/// Whether the entries stand in strictly rising order of identifier.
pub open spec fn ascending(entries: Seq<EntryView>) -> bool {
    forall|i: int, j: int|
        0 <= i < j < entries.len() ==> (#[trigger] entries[i]).record.id < (
        #[trigger] entries[j]).record.id
}

/// The sequence without the entry with the identifier, if it holds one.
pub open spec fn without(entries: Seq<EntryView>, id: u64) -> Seq<EntryView> {
    if has_entry(entries, id) {
        entries.remove(entry_index(entries, id))
    } else {
        entries
    }
}

/// A record as the spool stores it under an identifier: not in flight, and
/// with the identifier as the handle of its body.
pub open spec fn stored(record: RecordView, id: u64) -> RecordView {
    RecordView { id, body_ref: id, state: RecordState::Queued, ..record }
}

/// A record with a new retry state.
pub open spec fn retried(record: RecordView, retry: RetryState) -> RecordView {
    RecordView {
        attempts: retry.attempts,
        due: retry.due,
        last_error: retry.last_error,
        ..record
    }
}

/// The records of a sequence of entries.
pub open spec fn records_of(entries: Seq<EntryView>) -> Seq<RecordView> {
    entries.map_values(|e: EntryView| e.record)
}

/// The place of a new identifier in a rising sequence: behind the last
/// entry with a smaller identifier.
pub open spec fn rank(entries: Seq<EntryView>, id: u64) -> int
    decreases entries.len(),
{
    if entries.len() == 0 {
        0
    } else if entries.last().record.id < id {
        entries.len() as int
    } else {
        rank(entries.drop_last(), id)
    }
}

/// The sequence with an entry put at the place of its identifier. An entry
/// whose identifier is taken already, or is the last number there is, is
/// left out.
pub open spec fn placed(entries: Seq<EntryView>, entry: EntryView) -> Seq<EntryView> {
    if has_entry(entries, entry.record.id) || entry.record.id == u64::MAX {
        entries
    } else {
        entries.insert(rank(entries, entry.record.id), entry)
    }
}

/// The entries that a backend's stored byte sequences stand for, in rising
/// order of identifier. A byte sequence that stands for no entry is passed
/// over.
pub open spec fn restored(blobs: Seq<Seq<u8>>) -> Seq<EntryView>
    decreases blobs.len(),
{
    if blobs.len() == 0 {
        Seq::empty()
    } else {
        let before = restored(blobs.drop_last());
        match decoded(blobs.last()) {
            Some(entry) => placed(before, entry),
            None => before,
        }
    }
}

/// The identifier after the greatest of a rising sequence.
pub open spec fn next_after(entries: Seq<EntryView>) -> u64 {
    if entries.len() == 0 {
        0
    } else {
        (entries.last().record.id + 1) as u64
    }
}

/// Whether every entry is as the spool stores entries, with an identifier
/// that leaves room for a next one.
pub open spec fn storable(entries: Seq<EntryView>) -> bool {
    forall|i: int|
        0 <= i < entries.len() ==> {
            &&& (#[trigger] entries[i]).record.id < u64::MAX
            &&& entries[i].record.state == RecordState::Queued
            &&& entries[i].record.body_ref == entries[i].record.id
        }
}

/// In a rising sequence the place of an identifier has the smaller
/// identifiers before it and no smaller one from it on.
pub proof fn lemma_rank(entries: Seq<EntryView>, id: u64)
    requires
        ascending(entries),
    ensures
        0 <= rank(entries, id) <= entries.len(),
        forall|i: int| 0 <= i < rank(entries, id) ==> (#[trigger] entries[i]).record.id < id,
        forall|i: int|
            rank(entries, id) <= i < entries.len() ==> (#[trigger] entries[i]).record.id >= id,
    decreases entries.len(),
{
    if entries.len() > 0 {
        let last = entries.len() - 1;
        if entries.last().record.id < id {
            assert forall|i: int| 0 <= i < entries.len() implies (#[trigger] entries[i]).record.id
                < id by {
                if i < last {
                    assert(entries[i].record.id < entries[last].record.id);
                }
            }
        } else {
            let front = entries.drop_last();
            assert(ascending(front)) by {
                assert forall|i: int, j: int| 0 <= i < j < front.len() implies (
                #[trigger] front[i]).record.id < (#[trigger] front[j]).record.id by {
                    assert(entries[i].record.id < entries[j].record.id);
                }
            }
            lemma_rank(front, id);
            assert forall|i: int| 0 <= i < rank(entries, id) implies (
            #[trigger] entries[i]).record.id < id by {
                assert(front[i].record.id < id);
            }
            assert forall|i: int| rank(entries, id) <= i < entries.len() implies (
            #[trigger] entries[i]).record.id >= id by {
                if i < last {
                    assert(front[i].record.id >= id);
                }
            }
        }
    }
}

/// In a rising sequence the place of an identifier is the one place with
/// all smaller identifiers before it and none from it on.
pub proof fn lemma_rank_is(entries: Seq<EntryView>, id: u64, at: int)
    requires
        ascending(entries),
        0 <= at <= entries.len(),
        forall|i: int| 0 <= i < at ==> (#[trigger] entries[i]).record.id < id,
        forall|i: int| at <= i < entries.len() ==> (#[trigger] entries[i]).record.id >= id,
    ensures
        rank(entries, id) == at,
{
    lemma_rank(entries, id);
    let r = rank(entries, id);
    if r < at {
        assert(entries[r].record.id >= id);
        assert(entries[r].record.id < id);
    } else if at < r {
        assert(entries[at].record.id < id);
        assert(entries[at].record.id >= id);
    }
}

/// Putting an entry at the place of its identifier keeps a rising sequence
/// rising and storable entries storable.
pub proof fn lemma_placed(entries: Seq<EntryView>, entry: EntryView)
    requires
        ascending(entries),
        storable(entries),
        entry.record.state == RecordState::Queued,
        entry.record.body_ref == entry.record.id,
    ensures
        ascending(placed(entries, entry)),
        storable(placed(entries, entry)),
{
    let id = entry.record.id;
    let after = placed(entries, entry);
    if !(has_entry(entries, id) || id == u64::MAX) {
        lemma_rank(entries, id);
        let at = rank(entries, id);
        assert forall|i: int, j: int| 0 <= i < j < after.len() implies (
        #[trigger] after[i]).record.id < (#[trigger] after[j]).record.id by {
            let a = if i < at { i } else { i - 1 };
            let b = if j < at { j } else { j - 1 };
            if i == at {
                assert(entries[b].record.id >= id);
                assert(entries[b].record.id != id);
            } else if j == at {
                assert(entries[a].record.id < id);
            } else {
                assert(entries[a].record.id < entries[b].record.id);
            }
        }
        assert forall|i: int| 0 <= i < after.len() implies {
            &&& (#[trigger] after[i]).record.id < u64::MAX
            &&& after[i].record.state == RecordState::Queued
            &&& after[i].record.body_ref == after[i].record.id
        } by {
            let a = if i < at { i } else { i - 1 };
            if i != at {
                assert(entries[a].record.id < u64::MAX);
            }
        }
    }
}

/// What is restored from stored byte sequences is rising and storable.
pub proof fn lemma_restored(blobs: Seq<Seq<u8>>)
    ensures
        ascending(restored(blobs)),
        storable(restored(blobs)),
    decreases blobs.len(),
{
    if blobs.len() > 0 {
        lemma_restored(blobs.drop_last());
        if let Some(entry) = decoded(blobs.last()) {
            lemma_encode_decode(blobs.last());
            lemma_placed(restored(blobs.drop_last()), entry);
        }
    }
}

/// Durability through the backend: the entries of a spool, each written as
/// bytes, are restored from those bytes exactly as they were.
pub proof fn lemma_restored_from_written(entries: Seq<EntryView>)
    requires
        ascending(entries),
        storable(entries),
        forall|i: int| 0 <= i < entries.len() ==> encodable(#[trigger] entries[i]),
    ensures
        restored(entries.map_values(|e: EntryView| encoded(e))) == entries,
    decreases entries.len(),
{
    let blobs = entries.map_values(|e: EntryView| encoded(e));
    if entries.len() == 0 {
        assert(restored(blobs) =~= entries);
    } else {
        let front = entries.drop_last();
        let last = entries.len() - 1;
        assert(blobs.drop_last() =~= front.map_values(|e: EntryView| encoded(e)));
        assert(ascending(front)) by {
            assert forall|i: int, j: int| 0 <= i < j < front.len() implies (
            #[trigger] front[i]).record.id < (#[trigger] front[j]).record.id by {
                assert(entries[i].record.id < entries[j].record.id);
            }
        }
        assert(storable(front)) by {
            assert forall|i: int| 0 <= i < front.len() implies {
                &&& (#[trigger] front[i]).record.id < u64::MAX
                &&& front[i].record.state == RecordState::Queued
                &&& front[i].record.body_ref == front[i].record.id
            } by {
                assert(entries[i].record.id < u64::MAX);
            }
        }
        assert forall|i: int| 0 <= i < front.len() implies encodable(#[trigger] front[i]) by {
            assert(encodable(entries[i]));
        }
        lemma_restored_from_written(front);
        let entry = entries[last];
        assert(encodable(entry));
        lemma_decode_encode(entry);
        assert(blobs.last() == encoded(entry));
        assert(entry.record.id < u64::MAX);
        assert(!has_entry(front, entry.record.id)) by {
            if has_entry(front, entry.record.id) {
                let k = entry_index(front, entry.record.id);
                assert(entries[k].record.id < entries[last].record.id);
            }
        }
        assert forall|i: int| 0 <= i < front.len() implies (#[trigger] front[i]).record.id
            < entry.record.id by {
            assert(entries[i].record.id < entries[last].record.id);
        }
        lemma_rank_is(front, entry.record.id, front.len() as int);
        assert(front.insert(front.len() as int, entry) =~= entries);
    }
}

/// The spool as plain values.
pub struct SpoolView {
    pub kind: SpoolKind,
    /// Whether every change is made durable before it is reported.
    pub sync: bool,
    /// What the process sees.
    pub live: Seq<EntryView>,
    /// What survives a crash.
    pub durable: Seq<EntryView>,
    /// The identifier that the next entry gets.
    pub next_id: u64,
}

impl SpoolView {
    /// Both images are in rising order of identifier, every identifier
    /// given out is below the next one, every stored record is as `stored`
    /// leaves it, what is durable is also live, and with synchronous
    /// flushing the images agree.
    pub open spec fn wf(self) -> bool {
        &&& ascending(self.live)
        &&& ascending(self.durable)
        &&& forall|i: int|
            0 <= i < self.live.len() ==> {
                &&& (#[trigger] self.live[i]).record.id < self.next_id
                &&& self.live[i].record.state == RecordState::Queued
                &&& self.live[i].record.body_ref == self.live[i].record.id
            }
        &&& forall|i: int|
            0 <= i < self.durable.len() ==> {
                &&& has_entry(self.live, (#[trigger] self.durable[i]).record.id)
                &&& self.durable[i].record.state == RecordState::Queued
                &&& self.durable[i].record.body_ref == self.durable[i].record.id
            }
        &&& self.sync ==> self.durable == self.live
    }

    /// Whether the spool holds an entry with the identifier.
    pub open spec fn holds(self, id: u64) -> bool {
        has_entry(self.live, id)
    }

    /// The entry with the identifier.
    pub open spec fn entry(self, id: u64) -> EntryView {
        self.live[entry_index(self.live, id)]
    }

    /// Whether a record can be stored: it is not terminal and an identifier
    /// is left for it.
    pub open spec fn takes(self, record: RecordView) -> bool {
        !record.state.is_terminal() && self.next_id < u64::MAX
    }

    /// The spool after a record and its body were stored under the next
    /// identifier.
    pub open spec fn put(self, record: RecordView, body: Seq<u8>) -> SpoolView {
        let entry = EntryView { record: stored(record, self.next_id), body };
        SpoolView {
            live: self.live.push(entry),
            durable: if self.sync {
                self.live.push(entry)
            } else {
                self.durable
            },
            next_id: (self.next_id + 1) as u64,
            ..self
        }
    }

    /// The spool after the retry state of an entry was replaced.
    pub open spec fn updated(self, id: u64, retry: RetryState) -> SpoolView {
        let at = entry_index(self.live, id);
        let entry = EntryView { record: retried(self.live[at].record, retry), ..self.live[at] };
        SpoolView {
            live: self.live.update(at, entry),
            durable: if self.sync {
                self.live.update(at, entry)
            } else {
                self.durable
            },
            ..self
        }
    }

    /// The spool after an entry was deleted, from both images.
    pub open spec fn deleted(self, id: u64) -> SpoolView {
        SpoolView { live: without(self.live, id), durable: without(self.durable, id), ..self }
    }

    /// The spool after a flush: all that is live is durable.
    pub open spec fn flushed(self) -> SpoolView {
        SpoolView { durable: self.live, ..self }
    }

    /// The spool after a crash and restart: only what was durable is left.
    pub open spec fn crashed(self) -> SpoolView {
        SpoolView { live: self.durable, ..self }
    }

    /// The records that a reload yields, in rising order of identifier.
    pub open spec fn load_all(self) -> Seq<RecordView> {
        records_of(self.live)
    }

    /// An identifier that was given out and whose entry is gone.
    pub open spec fn released(self, id: u64) -> bool {
        id < self.next_id && !self.holds(id)
    }
}

/// In a rising sequence the entry with an identifier stands at one place
/// only.
pub proof fn lemma_entry_unique(entries: Seq<EntryView>, at: int)
    requires
        ascending(entries),
        0 <= at < entries.len(),
    ensures
        has_entry(entries, entries[at].record.id),
        entry_index(entries, entries[at].record.id) == at,
{
    let id = entries[at].record.id;
    let k = entry_index(entries, id);
    assert(0 <= k < entries.len() && entries[k].record.id == id);
    if k < at {
        assert(entries[k].record.id < entries[at].record.id);
    } else if at < k {
        assert(entries[at].record.id < entries[k].record.id);
    }
}

/// Taking an entry out of a rising sequence leaves it rising, and takes out
/// just that entry's identifier.
pub proof fn lemma_without(entries: Seq<EntryView>, id: u64)
    requires
        ascending(entries),
    ensures
        ascending(without(entries, id)),
        !has_entry(without(entries, id), id),
        forall|other: u64|
            #![trigger has_entry(without(entries, id), other)]
            has_entry(without(entries, id), other) <==> has_entry(entries, other) && other != id,
        forall|i: int|
            0 <= i < without(entries, id).len() ==> entries.contains(
                #[trigger] without(entries, id)[i],
            ),
{
    let rest = without(entries, id);
    if has_entry(entries, id) {
        let at = entry_index(entries, id);
        assert forall|i: int, j: int| 0 <= i < j < rest.len() implies (
        #[trigger] rest[i]).record.id < (#[trigger] rest[j]).record.id by {
            let a = if i < at { i } else { i + 1 };
            let b = if j < at { j } else { j + 1 };
            assert(entries[a].record.id < entries[b].record.id);
        }
        assert forall|other: u64| #![trigger has_entry(rest, other)] has_entry(rest, other)
            <==> has_entry(entries, other) && other != id by {
            if has_entry(rest, other) {
                let k = entry_index(rest, other);
                let a = if k < at { k } else { k + 1 };
                assert(entries[a].record.id == other);
                if a < at {
                    assert(entries[a].record.id < entries[at].record.id);
                } else {
                    assert(entries[at].record.id < entries[a].record.id);
                }
            }
            if has_entry(entries, other) && other != id {
                let k = entry_index(entries, other);
                if k < at {
                    assert(rest[k].record.id == other);
                } else {
                    assert(rest[k - 1].record.id == other);
                }
            }
        }
        assert forall|i: int| 0 <= i < rest.len() implies entries.contains(#[trigger] rest[i]) by {
            let a = if i < at { i } else { i + 1 };
            assert(entries[a] == rest[i]);
        }
    } else {
        assert forall|i: int| 0 <= i < rest.len() implies entries.contains(#[trigger] rest[i]) by {
            assert(entries[i] == rest[i]);
        }
    }
}

impl SpoolView {
    /// Storing a record keeps the spool well formed.
    pub proof fn lemma_put_wf(self, record: RecordView, body: Seq<u8>)
        requires
            self.wf(),
            self.takes(record),
        ensures
            self.put(record, body).wf(),
            self.put(record, body).holds(self.next_id),
            self.put(record, body).entry(self.next_id) == (EntryView {
                record: stored(record, self.next_id),
                body,
            }),
            forall|id: u64|
                #![trigger self.put(record, body).holds(id)]
                self.put(record, body).holds(id) <==> self.holds(id) || id == self.next_id,
    {
        let after = self.put(record, body);
        let entry = EntryView { record: stored(record, self.next_id), body };
        let last = self.live.len() as int;
        assert(after.live[last] == entry);
        assert forall|i: int, j: int| 0 <= i < j < after.live.len() implies (
        #[trigger] after.live[i]).record.id < (#[trigger] after.live[j]).record.id by {
            if j < last {
                assert(self.live[i].record.id < self.live[j].record.id);
            } else {
                assert(self.live[i].record.id < self.next_id);
            }
        }
        lemma_entry_unique(after.live, last);
        assert forall|id: u64| #![trigger after.holds(id)] after.holds(id) <==> self.holds(id)
            || id == self.next_id by {
            if after.holds(id) {
                let k = entry_index(after.live, id);
                if k < last {
                    assert(self.live[k].record.id == id);
                }
            }
            if self.holds(id) {
                let k = entry_index(self.live, id);
                assert(after.live[k].record.id == id);
            }
        }
        assert forall|i: int| 0 <= i < after.durable.len() implies has_entry(
            after.live,
            (#[trigger] after.durable[i]).record.id,
        ) by {
            if self.sync {
                assert(after.live[i].record.id == after.durable[i].record.id);
            } else {
                assert(has_entry(self.live, self.durable[i].record.id));
                assert(after.holds(self.durable[i].record.id));
            }
        }
    }

    /// Replacing the retry state of an entry keeps the spool well formed
    /// and changes that entry alone.
    pub proof fn lemma_updated_wf(self, id: u64, retry: RetryState)
        requires
            self.wf(),
            self.holds(id),
        ensures
            self.updated(id, retry).wf(),
            self.updated(id, retry).holds(id),
            self.updated(id, retry).entry(id) == (EntryView {
                record: retried(self.entry(id).record, retry),
                body: self.entry(id).body,
            }),
            forall|other: u64|
                #![trigger self.updated(id, retry).holds(other)]
                self.updated(id, retry).holds(other) <==> self.holds(other),
            forall|other: u64|
                #![trigger self.updated(id, retry).entry(other)]
                self.holds(other) && other != id ==> self.updated(id, retry).entry(other)
                    == self.entry(other),
    {
        let after = self.updated(id, retry);
        let at = entry_index(self.live, id);
        assert forall|i: int| 0 <= i < self.live.len() implies (#[trigger] after.live[i]).record.id
            == self.live[i].record.id by {}
        assert forall|i: int, j: int| 0 <= i < j < after.live.len() implies (
        #[trigger] after.live[i]).record.id < (#[trigger] after.live[j]).record.id by {
            assert(self.live[i].record.id < self.live[j].record.id);
        }
        assert forall|other: u64| #![trigger after.holds(other)] after.holds(other)
            <==> self.holds(other) by {
            if after.holds(other) {
                let k = entry_index(after.live, other);
                assert(self.live[k].record.id == other);
            }
            if self.holds(other) {
                let k = entry_index(self.live, other);
                assert(after.live[k].record.id == other);
            }
        }
        lemma_entry_unique(after.live, at);
        assert forall|other: u64|
            #![trigger after.entry(other)]
            self.holds(other) && other != id implies after.entry(other) == self.entry(other) by {
            let k = entry_index(self.live, other);
            lemma_entry_unique(self.live, k);
            lemma_entry_unique(after.live, k);
        }
        assert forall|i: int| 0 <= i < after.durable.len() implies has_entry(
            after.live,
            (#[trigger] after.durable[i]).record.id,
        ) by {
            if self.sync {
                assert(after.live[i].record.id == after.durable[i].record.id);
            } else {
                assert(has_entry(self.live, self.durable[i].record.id));
                assert(after.holds(self.durable[i].record.id));
            }
        }
    }

    /// Deleting an entry keeps the spool well formed, and the entry is gone
    /// from both images.
    pub proof fn lemma_deleted_wf(self, id: u64)
        requires
            self.wf(),
        ensures
            self.deleted(id).wf(),
            !self.deleted(id).holds(id),
            !has_entry(self.deleted(id).durable, id),
            forall|other: u64|
                #![trigger self.deleted(id).holds(other)]
                self.deleted(id).holds(other) <==> self.holds(other) && other != id,
    {
        let after = self.deleted(id);
        lemma_without(self.live, id);
        lemma_without(self.durable, id);
        assert forall|i: int| 0 <= i < after.live.len() implies {
            &&& (#[trigger] after.live[i]).record.id < after.next_id
            &&& after.live[i].record.state == RecordState::Queued
            &&& after.live[i].record.body_ref == after.live[i].record.id
        } by {
            assert(self.live.contains(after.live[i]));
            let j = choose|j: int| 0 <= j < self.live.len() && self.live[j] == after.live[i];
            assert(self.live[j].record.id < self.next_id);
        }
        assert forall|i: int| 0 <= i < after.durable.len() implies {
            &&& has_entry(after.live, (#[trigger] after.durable[i]).record.id)
            &&& after.durable[i].record.state == RecordState::Queued
            &&& after.durable[i].record.body_ref == after.durable[i].record.id
        } by {
            assert(self.durable.contains(after.durable[i]));
            let j = choose|j: int|
                0 <= j < self.durable.len() && self.durable[j] == after.durable[i];
            assert(has_entry(self.live, self.durable[j].record.id));
            let other = after.durable[i].record.id;
            assert(has_entry(after.durable, other));
            assert(after.holds(other));
        }
    }
}

impl SpoolView {
    /// A flush keeps the spool well formed.
    pub proof fn lemma_flushed_wf(self)
        requires
            self.wf(),
        ensures
            self.flushed().wf(),
    {
        let after = self.flushed();
        assert forall|i: int| 0 <= i < after.durable.len() implies has_entry(
            after.live,
            (#[trigger] after.durable[i]).record.id,
        ) by {
            assert(after.live[i].record.id == after.durable[i].record.id);
        }
    }

    /// A crash keeps the spool well formed.
    pub proof fn lemma_crashed_wf(self)
        requires
            self.wf(),
        ensures
            self.crashed().wf(),
    {
        let after = self.crashed();
        assert forall|i: int| 0 <= i < after.live.len() implies (
        #[trigger] after.live[i]).record.id < after.next_id by {
            let id = self.durable[i].record.id;
            assert(has_entry(self.live, id));
            let k = entry_index(self.live, id);
            assert(self.live[k].record.id < self.next_id);
        }
        assert forall|i: int| 0 <= i < after.durable.len() implies has_entry(
            after.live,
            (#[trigger] after.durable[i]).record.id,
        ) by {
            assert(after.live[i].record.id == after.durable[i].record.id);
        }
    }
}

/// One operation on the spool, or a crash.
pub enum SpoolOp {
    /// Store a record and its body.
    Put { record: RecordView, body: Seq<u8> },
    /// Replace the retry state of an entry.
    Update { id: u64, retry: RetryState },
    /// Delete an entry.
    Delete { id: u64 },
    /// Make everything that is live durable.
    Flush,
    /// Lose everything that is not durable.
    Crash,
}

impl SpoolView {
    /// The spool after one operation. An operation that is refused changes
    /// nothing.
    pub open spec fn step(self, op: SpoolOp) -> SpoolView {
        match op {
            SpoolOp::Put { record, body } => if self.takes(record) {
                self.put(record, body)
            } else {
                self
            },
            SpoolOp::Update { id, retry } => if self.holds(id) {
                self.updated(id, retry)
            } else {
                self
            },
            SpoolOp::Delete { id } => self.deleted(id),
            SpoolOp::Flush => self.flushed(),
            SpoolOp::Crash => self.crashed(),
        }
    }

    /// The spool after a sequence of operations.
    pub open spec fn run(self, ops: Seq<SpoolOp>) -> SpoolView
        decreases ops.len(),
    {
        if ops.len() == 0 {
            self
        } else {
            self.run(ops.drop_last()).step(ops.last())
        }
    }

    /// Every operation keeps the spool well formed, never lowers the next
    /// identifier, and leaves an identifier whose entry is gone without an
    /// entry.
    pub proof fn lemma_step(self, op: SpoolOp)
        requires
            self.wf(),
        ensures
            self.step(op).wf(),
            self.step(op).next_id >= self.next_id,
            forall|id: u64| self.released(id) ==> #[trigger] self.step(op).released(id),
    {
        let after = self.step(op);
        match op {
            SpoolOp::Put { record, body } => {
                if self.takes(record) {
                    self.lemma_put_wf(record, body);
                    assert forall|id: u64| self.released(id) implies #[trigger] after.released(
                        id,
                    ) by {
                        assert(after.holds(id) <==> self.holds(id) || id == self.next_id);
                    }
                }
            },
            SpoolOp::Update { id, retry } => {
                if self.holds(id) {
                    self.lemma_updated_wf(id, retry);
                    assert forall|x: u64| self.released(x) implies #[trigger] after.released(x) by {
                        assert(after.holds(x) <==> self.holds(x));
                    }
                }
            },
            SpoolOp::Delete { id } => {
                self.lemma_deleted_wf(id);
                assert forall|x: u64| self.released(x) implies #[trigger] after.released(x) by {
                    assert(after.holds(x) <==> self.holds(x) && x != id);
                }
            },
            SpoolOp::Flush => {
                self.lemma_flushed_wf();
            },
            SpoolOp::Crash => {
                self.lemma_crashed_wf();
                assert forall|x: u64| self.released(x) implies #[trigger] after.released(x) by {
                    if after.holds(x) {
                        let k = entry_index(self.durable, x);
                        assert(has_entry(self.live, self.durable[k].record.id));
                    }
                }
            },
        }
    }

    /// Every sequence of operations and crashes leaves the spool well
    /// formed.
    pub proof fn lemma_run_wf(self, ops: Seq<SpoolOp>)
        requires
            self.wf(),
        ensures
            self.run(ops).wf(),
            self.run(ops).next_id >= self.next_id,
        decreases ops.len(),
    {
        if ops.len() > 0 {
            self.lemma_run_wf(ops.drop_last());
            self.run(ops.drop_last()).lemma_step(ops.last());
        }
    }

    /// Durability: whatever was done to the spool, after a flush a crash
    /// loses nothing. A reload then yields exactly the records that were
    /// held at the flush, each with the retry state it had then.
    pub proof fn lemma_flushed_survives_crash(self, ops: Seq<SpoolOp>)
        requires
            self.wf(),
        ensures
            self.run(ops).flushed().crashed().live == self.run(ops).live,
            self.run(ops).flushed().crashed().load_all() == self.run(ops).load_all(),
    {
    }

    /// Durability with synchronous flushing: whatever was done to the spool,
    /// a crash at any moment loses nothing.
    pub proof fn lemma_sync_survives_crash(self, ops: Seq<SpoolOp>)
        requires
            self.wf(),
            self.sync,
        ensures
            self.run(ops).crashed() == self.run(ops),
        decreases ops.len(),
    {
        self.lemma_run_wf(ops);
        Self::lemma_run_keeps_mode(self, ops);
    }

    /// No operation changes the backend or the flushing mode.
    pub proof fn lemma_run_keeps_mode(self, ops: Seq<SpoolOp>)
        ensures
            self.run(ops).sync == self.sync,
            self.run(ops).kind == self.kind,
        decreases ops.len(),
    {
        if ops.len() > 0 {
            self.lemma_run_keeps_mode(ops.drop_last());
        }
    }

    /// A reload after a crash yields only records that were held before it,
    /// each as it was when it was last made durable, and never a record
    /// whose entry was deleted.
    pub proof fn lemma_crash_yields_durable(self, id: u64)
        requires
            self.wf(),
        ensures
            self.crashed().holds(id) ==> self.holds(id),
            self.crashed().holds(id) <==> has_entry(self.durable, id),
            self.released(id) ==> self.crashed().released(id),
    {
        self.lemma_step(SpoolOp::Crash);
        if self.crashed().holds(id) {
            let k = entry_index(self.durable, id);
            assert(has_entry(self.live, self.durable[k].record.id));
        }
    }

    /// A retry state that was stored and flushed is what a reload after a
    /// crash yields for the entry.
    pub proof fn lemma_update_persists(self, id: u64, retry: RetryState)
        requires
            self.wf(),
            self.holds(id),
        ensures
            self.updated(id, retry).flushed().crashed().holds(id),
            self.updated(id, retry).flushed().crashed().entry(id).record == retried(
                self.entry(id).record,
                retry,
            ),
    {
        self.lemma_updated_wf(id, retry);
    }

    /// An entry is removed at most once: once an identifier's entry is
    /// gone, no sequence of operations and crashes brings an entry with
    /// that identifier back, so that no later deletion finds one.
    pub proof fn lemma_released_forever(self, id: u64, ops: Seq<SpoolOp>)
        requires
            self.wf(),
            self.released(id),
        ensures
            self.run(ops).released(id),
            !self.run(ops).holds(id),
        decreases ops.len(),
    {
        if ops.len() > 0 {
            self.lemma_released_forever(id, ops.drop_last());
            self.lemma_run_wf(ops.drop_last());
            self.run(ops.drop_last()).lemma_step(ops.last());
        }
    }

    /// A deletion releases the identifier, whether or not the deletion had
    /// been flushed when a crash came.
    pub proof fn lemma_deleted_is_released(self, id: u64)
        requires
            self.wf(),
            self.holds(id),
        ensures
            self.deleted(id).released(id),
            self.deleted(id).crashed().released(id),
    {
        self.lemma_deleted_wf(id);
        let k = entry_index(self.live, id);
        assert(self.live[k].record.id < self.next_id);
        self.deleted(id).lemma_crash_yields_durable(id);
    }
}

fn copy_entries(entries: &Vec<SpoolEntry>) -> (copy: Vec<SpoolEntry>)
    ensures
        entry_views(copy@) == entry_views(entries@),
{
    let n: usize = entries.len();
    let mut copy: Vec<SpoolEntry> = Vec::with_capacity(n);
    let mut i: usize = 0;
    while i < n
        invariant
            n == entries.len(),
            i <= n,
            copy.len() == i,
            forall|j: int| 0 <= j < i ==> (#[trigger] copy@[j])@ == entries@[j]@,
        decreases n - i,
    {
        copy.push(entries[i].duplicate());
        i = i + 1;
    }
    proof {
        assert(entry_views(copy@) =~= entry_views(entries@));
    }
    copy
}

/// Looks for the entry with an identifier in a rising sequence. Returns
/// whether there is one, and its place or else the place where it would
/// go.
fn locate(entries: &Vec<SpoolEntry>, id: u64) -> (place: (bool, usize))
    requires
        ascending(entry_views(entries@)),
    ensures
        place.0 == has_entry(entry_views(entries@), id),
        place.1 <= entries.len(),
        place.0 ==> place.1 < entries.len() && entries[place.1 as int].record.id == id
            && entry_index(entry_views(entries@), id) == place.1,
        !place.0 ==> place.1 == rank(entry_views(entries@), id),
{
    let ghost views = entry_views(entries@);
    let mut lo: usize = 0;
    let mut hi: usize = entries.len();
    while lo < hi
        invariant
            views == entry_views(entries@),
            ascending(views),
            lo <= hi <= entries.len(),
            forall|i: int| 0 <= i < lo ==> (#[trigger] views[i]).record.id < id,
            forall|i: int| hi <= i < views.len() ==> (#[trigger] views[i]).record.id > id,
        decreases hi - lo,
    {
        let mid: usize = lo + (hi - lo) / 2;
        let seen: u64 = entries[mid].record.id;
        proof {
            assert(views[mid as int].record.id == seen);
        }
        if seen == id {
            proof {
                lemma_entry_unique(views, mid as int);
            }
            return (true, mid);
        } else if seen < id {
            proof {
                assert forall|i: int| 0 <= i < mid + 1 implies (#[trigger] views[i]).record.id
                    < id by {
                    if i < mid {
                        assert(views[i].record.id < views[mid as int].record.id);
                    }
                }
            }
            lo = mid + 1;
        } else {
            proof {
                assert forall|i: int| mid <= i < views.len() implies (#[trigger] views[i]).record.id
                    > id by {
                    if mid < i {
                        assert(views[mid as int].record.id < views[i].record.id);
                    }
                }
            }
            hi = mid;
        }
    }
    proof {
        lemma_rank_is(views, id, lo as int);
        if has_entry(views, id) {
            let k = entry_index(views, id);
            if k < lo {
                assert(views[k].record.id < id);
            } else {
                assert(views[k].record.id > id);
            }
        }
    }
    (false, lo)
}

/// Finds the entry with an identifier in a rising sequence.
fn find_entry(entries: &Vec<SpoolEntry>, id: u64) -> (found: Option<usize>)
    requires
        ascending(entry_views(entries@)),
    ensures
        match found {
            Some(at) => at < entries.len() && entries[at as int].record.id == id && has_entry(
                entry_views(entries@),
                id,
            ) && entry_index(entry_views(entries@), id) == at,
            None => !has_entry(entry_views(entries@), id),
        },
{
    let (found, at) = locate(entries, id);
    if found {
        Some(at)
    } else {
        None
    }
}

/// The views of a sequence of byte sequences.
pub open spec fn blob_views(blobs: Seq<Vec<u8>>) -> Seq<Seq<u8>> {
    blobs.map_values(|b: Vec<u8>| b@)
}

/// Spool storage.
#[derive(Debug)]
pub struct SpoolStorage {
    kind: SpoolKind,
    sync: bool,
    live: Vec<SpoolEntry>,
    durable: Vec<SpoolEntry>,
    next_id: u64,
}

impl View for SpoolStorage {
    type V = SpoolView;

    closed spec fn view(&self) -> SpoolView {
        SpoolView {
            kind: self.kind,
            sync: self.sync,
            live: entry_views(self.live@),
            durable: entry_views(self.durable@),
            next_id: self.next_id,
        }
    }
}

impl SpoolStorage {
    /// The storage holds what a well-formed spool holds.
    pub open spec fn wf(&self) -> bool {
        self@.wf()
    }

    /// An empty spool on the given backend. With `sync` every change is
    /// durable before it is reported; without it changes become durable at
    /// the next flush.
    pub fn new(kind: SpoolKind, sync: bool) -> (spool: Self)
        ensures
            spool.wf(),
            spool@ == (SpoolView {
                kind,
                sync,
                live: Seq::empty(),
                durable: Seq::empty(),
                next_id: 0,
            }),
    {
        let spool = SpoolStorage { kind, sync, live: Vec::new(), durable: Vec::new(), next_id: 0 };
        assert(spool@.live =~= Seq::<EntryView>::empty());
        assert(spool@.durable =~= Seq::<EntryView>::empty());
        spool
    }

    /// An empty spool as a definition of a named spool describes it.
    pub fn open(params: &DefineSpoolParams) -> (spool: Self)
        ensures
            spool.wf(),
            spool@ == (SpoolView {
                kind: params.kind,
                sync: params.flush,
                live: Seq::empty(),
                durable: Seq::empty(),
                next_id: 0,
            }),
    {
        Self::new(params.kind, params.flush)
    }

    /// The backend of the spool.
    pub fn kind(&self) -> (kind: SpoolKind)
        ensures
            kind == self@.kind,
    {
        self.kind
    }

    /// Whether every change is made durable before it is reported.
    pub fn is_sync(&self) -> (sync: bool)
        ensures
            sync == self@.sync,
    {
        self.sync
    }

    /// The identifier that the next entry gets.
    pub fn next_id(&self) -> (id: u64)
        ensures
            id == self@.next_id,
    {
        self.next_id
    }

    /// The number of entries.
    pub fn len(&self) -> (n: usize)
        ensures
            n == self@.live.len(),
    {
        self.live.len()
    }

    /// Whether the spool holds an entry with the identifier.
    pub fn contains(&self, id: u64) -> (held: bool)
        requires
            self.wf(),
        ensures
            held == self@.holds(id),
    {
        find_entry(&self.live, id).is_some()
    }

    /// Stores a record and its body under a new identifier and returns the
    /// identifier.
    ///
    /// The stored record carries the new identifier, also as the handle of
    /// its body, and is not in flight. `io` is the backend's report on the
    /// write; if it failed the message is not accepted and nothing changes.
    pub fn put(&mut self, record: MessageRecord, body: Vec<u8>, io: IoStatus) -> (done: Result<
        u64,
        SpoolError,
    >)
        requires
            old(self).wf(),
        ensures
            final(self).wf(),
            match done {
                Ok(id) => {
                    &&& io == IoStatus::Done
                    &&& old(self)@.takes(record@)
                    &&& id == old(self)@.next_id
                    &&& final(self)@ == old(self)@.put(record@, body@)
                    &&& final(self)@.holds(id)
                    &&& final(self)@.entry(id) == (EntryView {
                        record: stored(record@, id),
                        body: body@,
                    })
                },
                Err(SpoolError::Terminal) => record@.state.is_terminal() && final(self)@ == old(self)@,
                Err(SpoolError::Exhausted) => !record@.state.is_terminal() && old(self)@.next_id
                    == u64::MAX && final(self)@ == old(self)@,
                Err(SpoolError::Io) => old(self)@.takes(record@) && io == IoStatus::Failed
                    && final(self)@ == old(self)@,
                Err(SpoolError::NotFound) => false,
            },
    {
        if record.state.terminal() {
            return Err(SpoolError::Terminal);
        }
        if self.next_id == u64::MAX {
            return Err(SpoolError::Exhausted);
        }
        if let IoStatus::Failed = io {
            return Err(SpoolError::Io);
        }
        let ghost before = self@;
        let ghost rv = record@;
        let id: u64 = self.next_id;
        let mut record = record;
        record.id = id;
        record.body_ref = id;
        record.state = RecordState::Queued;
        let entry = SpoolEntry { record, body };
        if self.sync {
            self.durable.push(entry.duplicate());
        }
        self.live.push(entry);
        self.next_id = id + 1;
        proof {
            before.lemma_put_wf(rv, body@);
            assert(self@.live =~= before.put(rv, body@).live);
            assert(self@.durable =~= before.put(rv, body@).durable);
        }
        Ok(id)
    }

    /// The record stored under an identifier.
    pub fn get(&self, id: u64) -> (found: Result<MessageRecord, SpoolError>)
        requires
            self.wf(),
        ensures
            match found {
                Ok(record) => self@.holds(id) && record@ == self@.entry(id).record,
                Err(e) => e == SpoolError::NotFound && !self@.holds(id),
            },
    {
        match find_entry(&self.live, id) {
            Some(at) => Ok(self.live[at].record.duplicate()),
            None => Err(SpoolError::NotFound),
        }
    }

    /// The body stored under an identifier.
    pub fn body(&self, id: u64) -> (found: Result<Vec<u8>, SpoolError>)
        requires
            self.wf(),
        ensures
            match found {
                Ok(bytes) => self@.holds(id) && bytes@ == self@.entry(id).body,
                Err(e) => e == SpoolError::NotFound && !self@.holds(id),
            },
    {
        match find_entry(&self.live, id) {
            Some(at) => Ok(copy_bytes(&self.live[at].body)),
            None => Err(SpoolError::NotFound),
        }
    }

    /// Replaces the retry state of an entry.
    ///
    /// `io` is the backend's report on the write; if it failed the update is
    /// not applied and nothing changes.
    pub fn update_metadata(&mut self, id: u64, retry: RetryState, io: IoStatus) -> (done: Result<
        (),
        SpoolError,
    >)
        requires
            old(self).wf(),
        ensures
            final(self).wf(),
            match done {
                Ok(()) => {
                    &&& old(self)@.holds(id)
                    &&& io == IoStatus::Done
                    &&& final(self)@ == old(self)@.updated(id, retry)
                    &&& final(self)@.holds(id)
                    &&& final(self)@.entry(id).record == retried(old(self)@.entry(id).record, retry)
                    &&& final(self)@.entry(id).body == old(self)@.entry(id).body
                },
                Err(SpoolError::NotFound) => !old(self)@.holds(id) && final(self)@ == old(self)@,
                Err(SpoolError::Io) => old(self)@.holds(id) && io == IoStatus::Failed && final(self)@ == old(self)@,
                Err(_) => false,
            },
    {
        let at: usize = match find_entry(&self.live, id) {
            Some(at) => at,
            None => {
                return Err(SpoolError::NotFound);
            },
        };
        if let IoStatus::Failed = io {
            return Err(SpoolError::Io);
        }
        let ghost before = self@;
        let entry = &mut self.live[at];
        entry.record.attempts = retry.attempts;
        entry.record.due = retry.due;
        entry.record.last_error = retry.last_error;
        if self.sync {
            let twin = &mut self.durable[at];
            twin.record.attempts = retry.attempts;
            twin.record.due = retry.due;
            twin.record.last_error = retry.last_error;
        }
        proof {
            before.lemma_updated_wf(id, retry);
            assert(self@.live =~= before.updated(id, retry).live);
            assert(self@.durable =~= before.updated(id, retry).durable);
        }
        Ok(())
    }

    /// Deletes an entry, from what is live and from what is durable.
    ///
    /// `io` is the backend's report on the removal; if it failed nothing
    /// changes.
    pub fn delete(&mut self, id: u64, io: IoStatus) -> (done: Result<(), SpoolError>)
        requires
            old(self).wf(),
        ensures
            final(self).wf(),
            match done {
Ok(()) => {
                    &&& old(self)@.holds(id)
                    &&& io == IoStatus::Done
                    &&& final(self)@ == old(self)@.deleted(id)
                    &&& !final(self)@.holds(id)
                },
                Err(SpoolError::NotFound) => !old(self)@.holds(id) && final(self)@ == old(self)@,
                Err(SpoolError::Io) => old(self)@.holds(id) && io == IoStatus::Failed && final(self)@ == old(self)@,
                Err(_) => false,
            },
    {
        let at: usize = match find_entry(&self.live, id) {
            Some(at) => at,
            None => {
                return Err(SpoolError::NotFound);
            },
        };
        if let IoStatus::Failed = io {
            return Err(SpoolError::Io);
        }
        let ghost before = self@;
        let _ = self.live.remove(at);
        match find_entry(&self.durable, id) {
            Some(twin) => {
                let _ = self.durable.remove(twin);
            },
            None => {},
        }
        proof {
            before.lemma_deleted_wf(id);
            assert(self@.live =~= before.deleted(id).live);
            assert(self@.durable =~= before.deleted(id).durable);
        }
        Ok(())
    }

    /// Carries out an instruction from a queue.
    pub fn apply(&mut self, instruction: SpoolInstruction, io: IoStatus) -> (done: Result<
        (),
        SpoolError,
    >)
        requires
            old(self).wf(),
        ensures
            final(self).wf(),
            match instruction {
                SpoolInstruction::Persist { id, attempts, due, last_error } => match done {
                    Ok(()) => old(self)@.holds(id) && io == IoStatus::Done && final(self)@ == old(self)@.updated(id, RetryState { attempts, due, last_error }),
                    Err(SpoolError::NotFound) => !old(self)@.holds(id) && final(self)@ == old(self)@,
                    Err(SpoolError::Io) => old(self)@.holds(id) && io == IoStatus::Failed && final(self)@ == old(self)@,
                    Err(_) => false,
                },
                SpoolInstruction::Release { id } => match done {
                    Ok(()) => old(self)@.holds(id) && io == IoStatus::Done && final(self)@ == old(self)@.deleted(id),
                    Err(SpoolError::NotFound) => !old(self)@.holds(id) && final(self)@ == old(self)@,
                    Err(SpoolError::Io) => old(self)@.holds(id) && io == IoStatus::Failed && final(self)@ == old(self)@,
                    Err(_) => false,
                },
            },
    {
        match instruction {
            SpoolInstruction::Persist { id, attempts, due, last_error } => self.update_metadata(
                id,
                RetryState { attempts, due, last_error },
                io,
            ),
            SpoolInstruction::Release { id } => self.delete(id, io),
        }
    }

    /// Makes everything that is live durable.
    ///
    /// `io` is the backend's report on the flush; if it failed nothing
    /// changes.
    pub fn flush(&mut self, io: IoStatus) -> (done: Result<(), SpoolError>)
        requires
            old(self).wf(),
        ensures
            final(self).wf(),
            match done {
                Ok(()) => io == IoStatus::Done && final(self)@ == old(self)@.flushed(),
                Err(e) => e == SpoolError::Io && io == IoStatus::Failed && final(self)@ == old(self)@,
            },
    {
        if let IoStatus::Failed = io {
            return Err(SpoolError::Io);
        }
        let ghost before = self@;
        if !self.sync {
            self.durable = copy_entries(&self.live);
        }
        proof {
            before.lemma_flushed_wf();
            assert(self@.durable =~= before.flushed().durable);
        }
        Ok(())
    }

    /// The records of all entries, in rising order of identifier: what the
    /// queues are rebuilt from at startup.
    pub fn load_all(&self) -> (records: Vec<MessageRecord>)
        ensures
            views(records@) == self@.load_all(),
    {
        let n: usize = self.live.len();
        let mut records: Vec<MessageRecord> = Vec::with_capacity(n);
        let mut i: usize = 0;
        while i < n
            invariant
                n == self.live.len(),
                i <= n,
                records.len() == i,
                forall|j: int| 0 <= j < i ==> (#[trigger] records@[j])@ == self.live@[j].record@,
            decreases n - i,
        {
            records.push(self.live[i].record.duplicate());
            i = i + 1;
        }
        proof {
            assert(views(records@) =~= self@.load_all());
        }
        records
    }

    /// The bytes that the backend stores for an entry.
    pub fn export(&self, id: u64) -> (found: Result<Vec<u8>, SpoolError>)
        requires
            self.wf(),
        ensures
            match found {
                Ok(bytes) => self@.holds(id) && bytes@ == encoded(self@.entry(id)),
                Err(e) => e == SpoolError::NotFound && !self@.holds(id),
            },
    {
        match find_entry(&self.live, id) {
            Some(at) => Ok(encode_entry(&self.live[at])),
            None => Err(SpoolError::NotFound),
        }
    }

    /// The identifier that `put` will give the record and the bytes that
    /// the backend has to write for it, if the record can be stored.
    pub fn plan_put(&self, record: &MessageRecord, body: &Vec<u8>) -> (plan: Option<(u64, Vec<u8>)>)
        ensures
            match plan {
                Some((id, bytes)) => self@.takes(record@) && id == self@.next_id && bytes@
                    == encoded(EntryView { record: stored(record@, id), body: body@ }),
                None => !self@.takes(record@),
            },
    {
        if record.state.terminal() || self.next_id == u64::MAX {
            return None;
        }
        let id: u64 = self.next_id;
        let mut copy = record.duplicate();
        copy.id = id;
        copy.body_ref = id;
        copy.state = RecordState::Queued;
        let entry = SpoolEntry { record: copy, body: copy_bytes(body) };
        Some((id, encode_entry(&entry)))
    }

    /// The bytes that the backend has to write for an entry when its retry
    /// state is replaced.
    pub fn plan_update(&self, id: u64, retry: RetryState) -> (plan: Result<Vec<u8>, SpoolError>)
        requires
            self.wf(),
        ensures
            match plan {
                Ok(bytes) => self@.holds(id) && bytes@ == encoded(
                    EntryView {
                        record: retried(self@.entry(id).record, retry),
                        body: self@.entry(id).body,
                    },
                ),
                Err(e) => e == SpoolError::NotFound && !self@.holds(id),
            },
    {
        match find_entry(&self.live, id) {
            Some(at) => {
                let mut entry = self.live[at].duplicate();
                entry.record.attempts = retry.attempts;
                entry.record.due = retry.due;
                entry.record.last_error = retry.last_error;
                Ok(encode_entry(&entry))
            },
            None => Err(SpoolError::NotFound),
        }
    }

    /// Rebuilds a spool from the byte sequences that its backend holds, in
    /// whatever order the backend yields them.
    ///
    /// Everything restored is durable. A byte sequence that stands for no
    /// entry, or for one whose identifier an earlier one has, is passed
    /// over. The next identifier is the one after the greatest restored.
    pub fn restore(kind: SpoolKind, sync: bool, blobs: &Vec<Vec<u8>>) -> (spool: Self)
        ensures
            spool.wf(),
            spool@ == (SpoolView {
                kind,
                sync,
                live: restored(blob_views(blobs@)),
                durable: restored(blob_views(blobs@)),
                next_id: next_after(restored(blob_views(blobs@))),
            }),
    {
        let ghost all = blob_views(blobs@);
        let mut live: Vec<SpoolEntry> = Vec::new();
        let n: usize = blobs.len();
        let mut i: usize = 0;
        proof {
            assert(all.subrange(0, 0) =~= Seq::<Seq<u8>>::empty());
            assert(entry_views(live@) =~= restored(all.subrange(0, 0)));
        }
        while i < n
            invariant
                n == blobs.len(),
                i <= n,
                all == blob_views(blobs@),
                entry_views(live@) == restored(all.subrange(0, i as int)),
            decreases n - i,
        {
            let ghost before = entry_views(live@);
            proof {
                lemma_restored(all.subrange(0, i as int));
                assert(all.subrange(0, i + 1).drop_last() =~= all.subrange(0, i as int));
                assert(all.subrange(0, i + 1).last() == blobs@[i as int]@);
            }
            match decode_entry(&blobs[i]) {
                Some(entry) => {
                    if entry.record.id < u64::MAX {
                        let (taken, at) = locate(&live, entry.record.id);
                        if !taken {
                            let ghost ev = entry@;
                            live.insert(at, entry);
                            proof {
                                assert(entry_views(live@) =~= before.insert(at as int, ev));
                            }
                        }
                    }
                },
                None => {},
            }
            i = i + 1;
        }
        proof {
            assert(all.subrange(0, n as int) =~= all);
            lemma_restored(all);
        }
        let next_id: u64 = if live.len() == 0 {
            0
        } else {
            let last: usize = live.len() - 1;
            proof {
                assert(entry_views(live@)[last as int].record.id < u64::MAX);
            }
            live[last].record.id + 1
        };
        let durable = copy_entries(&live);
        let spool = SpoolStorage { kind, sync, live, durable, next_id };
        proof {
            let v = spool@;
            assert(v.live == restored(all));
            assert(v.durable == v.live);
            assert forall|k: int| 0 <= k < v.live.len() implies (#[trigger] v.live[k]).record.id
                < v.next_id by {
                let last = v.live.len() - 1;
                if k < last {
                    assert(v.live[k].record.id < v.live[last].record.id);
                }
            }
            assert forall|k: int| 0 <= k < v.durable.len() implies has_entry(
                v.live,
                (#[trigger] v.durable[k]).record.id,
            ) by {
                assert(v.live[k].record.id == v.durable[k].record.id);
            }
        }
        spool
    }

    /// Forgets everything that is not durable, as a crash followed by a
    /// restart does.
    pub fn simulate_crash(&mut self)
        requires
            old(self).wf(),
        ensures
            final(self).wf(),
            final(self)@ == old(self)@.crashed(),
    {
        let ghost before = self@;
        self.live = copy_entries(&self.durable);
        proof {
            before.lemma_crashed_wf();
            assert(self@.live =~= before.crashed().live);
        }
    }
}

} // verus!
