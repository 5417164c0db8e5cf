//! The queue of one routing key.
//!
//! A queue owns its records from admission to a terminal state. Every record
//! is in exactly one of three places: the ready set, kept in order of
//! admission; the delayed set, kept in order of due time; or in flight,
//! together with the permit that its attempt holds.

use crate::policy::{instruction_for, AttemptOutcome, QueueConfig, SpoolInstruction};
use crate::record::{views, MessageRecord, RecordState, RecordView};
use crate::site::{
    busy_count, granted_permits, lemma_grant, pool_after, Acquired, DestSiteConfig, Permit,
    PermitView, SiteManager, Slot,
};
use std::collections::VecDeque;
use vstd::prelude::*;

verus! {

/// A record as it waits in the ready set.
pub open spec fn queued(record: RecordView) -> RecordView {
    RecordView { state: RecordState::Queued, ..record }
}

/// A record as it waits in the delayed set.
pub open spec fn delayed(record: RecordView) -> RecordView {
    RecordView { state: RecordState::Delayed, ..record }
}

/// A record while an attempt runs.
pub open spec fn flying(record: RecordView) -> RecordView {
    RecordView { state: RecordState::InFlight, ..record }
}

/// The number of records at the head of `records` that are due at `now`.
pub open spec fn leading_due(records: Seq<RecordView>, now: u64) -> nat
    decreases records.len(),
{
    if records.len() > 0 && records[0].due <= now {
        1 + leading_due(records.drop_first(), now)
    } else {
        0
    }
}

/// The place at which a record due at `due` enters the delayed set: behind
/// the last record that is due no later.
pub open spec fn slot_for(records: Seq<RecordView>, due: u64) -> int
    decreases records.len(),
{
    if records.len() == 0 {
        0
    } else if records.last().due <= due {
        records.len() as int
    } else {
        slot_for(records.drop_last(), due)
    }
}

/// Whether the records stand in order of due time, earliest first.
pub open spec fn by_due(records: Seq<RecordView>) -> bool {
    forall|i: int, j: int| 0 <= i < j < records.len() ==> records[i].due <= records[j].due
}

/// Whether some record of the sequence has the identifier.
pub open spec fn has_id(records: Seq<RecordView>, id: u64) -> bool {
    exists|i: int| 0 <= i < records.len() && (#[trigger] records[i]).id == id
}

/// The identifiers of a sequence of records, in order.
pub open spec fn ids_in(records: Seq<RecordView>) -> Seq<u64> {
    records.map_values(|r: RecordView| r.id)
}

/// Whether no identifier occurs twice in the sequence.
pub open spec fn distinct_ids(records: Seq<RecordView>) -> bool {
    forall|i: int, j: int|
        0 <= i < j < records.len() ==> (#[trigger] records[i]).id != (#[trigger] records[j]).id
}

/// In a sequence ordered by due time the place for a new record has every
/// record due no later before it and every record due later behind it.
pub proof fn lemma_slot_for(records: Seq<RecordView>, due: u64)
    requires
        by_due(records),
    ensures
        0 <= slot_for(records, due) <= records.len(),
        forall|i: int| 0 <= i < slot_for(records, due) ==> records[i].due <= due,
        forall|i: int| slot_for(records, due) <= i < records.len() ==> records[i].due > due,
    decreases records.len(),
{
    if records.len() > 0 && records.last().due > due {
        let front = records.drop_last();
        assert(by_due(front)) by {
            assert forall|i: int, j: int| 0 <= i < j < front.len() implies front[i].due
                <= front[j].due by {
                assert(records[i].due <= records[j].due);
            }
        }
        lemma_slot_for(front, due);
        assert forall|i: int| 0 <= i < slot_for(records, due) implies records[i].due <= due by {
            assert(front[i].due <= due);
        }
        assert forall|i: int| slot_for(records, due) <= i < records.len() implies records[i].due
            > due by {
            if i < front.len() {
                assert(front[i].due > due);
            }
        }
    } else if records.len() > 0 {
        let last = records.len() - 1;
        assert forall|i: int| 0 <= i < records.len() implies records[i].due <= due by {
            if i < last {
                assert(records[i].due <= records[last].due);
            }
        }
    }
}

/// In a sequence ordered by due time the records due at `now` are exactly
/// the leading ones.
pub proof fn lemma_leading_due(records: Seq<RecordView>, now: u64)
    ensures
        leading_due(records, now) <= records.len(),
        forall|i: int| 0 <= i < leading_due(records, now) ==> records[i].due <= now,
        by_due(records) ==> forall|i: int|
            leading_due(records, now) <= i < records.len() ==> records[i].due > now,
    decreases records.len(),
{
    if records.len() > 0 && records[0].due <= now {
        let rest = records.drop_first();
        lemma_leading_due(rest, now);
        assert forall|i: int| 0 <= i < leading_due(records, now) implies records[i].due <= now by {
            if i > 0 {
                assert(rest[i - 1].due <= now);
            }
        }
        if by_due(records) {
            assert(by_due(rest)) by {
                assert forall|i: int, j: int| 0 <= i < j < rest.len() implies rest[i].due
                    <= rest[j].due by {
                    assert(records[i + 1].due <= records[j + 1].due);
                }
            }
            assert forall|i: int| leading_due(records, now) <= i < records.len() implies records[i].due
                > now by {
                assert(rest[i - 1].due > now);
            }
        }
    } else if records.len() > 0 && by_due(records) {
        assert forall|i: int| 0 <= i < records.len() implies records[i].due > now by {
            if i > 0 {
                assert(records[0].due <= records[i].due);
            }
        }
    }
}

/// Whether no identifier occurs in both sequences.
pub open spec fn disjoint_ids(a: Seq<RecordView>, b: Seq<RecordView>) -> bool {
    forall|i: int, j: int|
        0 <= i < a.len() && 0 <= j < b.len() ==> (#[trigger] a[i]).id != (#[trigger] b[j]).id
}

/// Three sequences hold no identifier twice between them exactly when none
/// holds one twice and no two of them share one.
pub proof fn lemma_distinct_parts(r: Seq<RecordView>, d: Seq<RecordView>, f: Seq<RecordView>)
    ensures
        distinct_ids(r + d + f) <==> {
            &&& distinct_ids(r)
            &&& distinct_ids(d)
            &&& distinct_ids(f)
            &&& disjoint_ids(r, d)
            &&& disjoint_ids(r, f)
            &&& disjoint_ids(d, f)
        },
{
    let all = r + d + f;
    let rl = r.len() as int;
    let dl = d.len() as int;
    if distinct_ids(all) {
        assert forall|i: int, j: int| 0 <= i < j < r.len() implies (#[trigger] r[i]).id != (
        #[trigger] r[j]).id by {
            assert(all[i].id != all[j].id);
        }
        assert forall|i: int, j: int| 0 <= i < j < d.len() implies (#[trigger] d[i]).id != (
        #[trigger] d[j]).id by {
            assert(all[rl + i].id != all[rl + j].id);
        }
        assert forall|i: int, j: int| 0 <= i < j < f.len() implies (#[trigger] f[i]).id != (
        #[trigger] f[j]).id by {
            assert(all[rl + dl + i].id != all[rl + dl + j].id);
        }
        assert forall|i: int, j: int| 0 <= i < r.len() && 0 <= j < d.len() implies (
        #[trigger] r[i]).id != (#[trigger] d[j]).id by {
            assert(all[i].id != all[rl + j].id);
        }
        assert forall|i: int, j: int| 0 <= i < r.len() && 0 <= j < f.len() implies (
        #[trigger] r[i]).id != (#[trigger] f[j]).id by {
            assert(all[i].id != all[rl + dl + j].id);
        }
        assert forall|i: int, j: int| 0 <= i < d.len() && 0 <= j < f.len() implies (
        #[trigger] d[i]).id != (#[trigger] f[j]).id by {
            assert(all[rl + i].id != all[rl + dl + j].id);
        }
    }
    if distinct_ids(r) && distinct_ids(d) && distinct_ids(f) && disjoint_ids(r, d) && disjoint_ids(
        r,
        f,
    ) && disjoint_ids(d, f) {
        assert forall|i: int, j: int| 0 <= i < j < all.len() implies (#[trigger] all[i]).id != (
        #[trigger] all[j]).id by {
            if j < rl {
                assert(r[i].id != r[j].id);
            } else if j < rl + dl {
                if i < rl {
                    assert(r[i].id != d[j - rl].id);
                } else {
                    assert(d[i - rl].id != d[j - rl].id);
                }
            } else {
                if i < rl {
                    assert(r[i].id != f[j - rl - dl].id);
                } else if i < rl + dl {
                    assert(d[i - rl].id != f[j - rl - dl].id);
                } else {
                    assert(f[i - rl - dl].id != f[j - rl - dl].id);
                }
            }
        }
    }
}

/// An identifier occurs in the concatenation of three sequences exactly when
/// it occurs in one of them.
pub proof fn lemma_has_id_parts(
    r: Seq<RecordView>,
    d: Seq<RecordView>,
    f: Seq<RecordView>,
    id: u64,
)
    ensures
        has_id(r + d + f, id) <==> has_id(r, id) || has_id(d, id) || has_id(f, id),
{
    let all = r + d + f;
    let rl = r.len() as int;
    let dl = d.len() as int;
    if has_id(all, id) {
        let k = choose|k: int| 0 <= k < all.len() && (#[trigger] all[k]).id == id;
        if k < rl {
            assert(r[k].id == id);
        } else if k < rl + dl {
            assert(d[k - rl].id == id);
        } else {
            assert(f[k - rl - dl].id == id);
        }
    }
    if has_id(r, id) {
        let k = choose|k: int| 0 <= k < r.len() && (#[trigger] r[k]).id == id;
        assert(all[k].id == id);
    }
    if has_id(d, id) {
        let k = choose|k: int| 0 <= k < d.len() && (#[trigger] d[k]).id == id;
        assert(all[rl + k].id == id);
    }
    if has_id(f, id) {
        let k = choose|k: int| 0 <= k < f.len() && (#[trigger] f[k]).id == id;
        assert(all[rl + dl + k].id == id);
    }
}

/// An identifier occurs in a concatenation exactly when it occurs in one of
/// the two parts.
pub proof fn lemma_has_id_concat(a: Seq<RecordView>, b: Seq<RecordView>, id: u64)
    ensures
        has_id(a + b, id) <==> has_id(a, id) || has_id(b, id),
{
    let all = a + b;
    if has_id(all, id) {
        let k = choose|k: int| 0 <= k < all.len() && (#[trigger] all[k]).id == id;
        if k < a.len() {
            assert(a[k].id == id);
        } else {
            assert(b[k - a.len()].id == id);
        }
    }
    if has_id(a, id) {
        let k = choose|k: int| 0 <= k < a.len() && (#[trigger] a[k]).id == id;
        assert(all[k].id == id);
    }
    if has_id(b, id) {
        let k = choose|k: int| 0 <= k < b.len() && (#[trigger] b[k]).id == id;
        assert(all[a.len() + k].id == id);
    }
}

/// Two sequences that carry the same identifiers place by place hold the
/// same identifiers.
pub proof fn lemma_has_id_same(a: Seq<RecordView>, b: Seq<RecordView>, id: u64)
    requires
        a.len() == b.len(),
        forall|i: int| 0 <= i < a.len() ==> (#[trigger] a[i]).id == b[i].id,
    ensures
        has_id(a, id) <==> has_id(b, id),
{
    if has_id(a, id) {
        let k = choose|k: int| 0 <= k < a.len() && (#[trigger] a[k]).id == id;
        assert(a[k].id == b[k].id);
        assert(b[k].id == id);
    }
    if has_id(b, id) {
        let k = choose|k: int| 0 <= k < b.len() && (#[trigger] b[k]).id == id;
        assert(a[k].id == b[k].id);
    }
}

/// An identifier occurs in a sequence exactly when it occurs before or
/// from a given place on.
pub proof fn lemma_has_id_split(s: Seq<RecordView>, k: int, id: u64)
    requires
        0 <= k <= s.len(),
    ensures
        has_id(s, id) <==> has_id(s.subrange(0, k), id) || has_id(
            s.subrange(k, s.len() as int),
            id,
        ),
{
    assert(s =~= s.subrange(0, k) + s.subrange(k, s.len() as int));
    lemma_has_id_concat(s.subrange(0, k), s.subrange(k, s.len() as int), id);
}

/// Moving the first `k` records of one sequence to the end of another,
/// with their identifiers kept, leaves the identifiers of each sequence
/// distinct and the two sequences without a common identifier, and brings
/// no identifier in that was in neither.
pub proof fn lemma_move_prefix(
    src: Seq<RecordView>,
    dst: Seq<RecordView>,
    k: int,
    moved: Seq<RecordView>,
)
    requires
        0 <= k <= src.len(),
        moved.len() == k,
        forall|i: int| 0 <= i < k ==> (#[trigger] moved[i]).id == src[i].id,
        distinct_ids(src),
        distinct_ids(dst),
        forall|id: u64| !(has_id(src, id) && has_id(dst, id)),
    ensures
        distinct_ids(src.subrange(k, src.len() as int)),
        distinct_ids(dst + moved),
        forall|id: u64|
            #![trigger has_id(src.subrange(k, src.len() as int), id)]
            #![trigger has_id(dst + moved, id)]
            !(has_id(src.subrange(k, src.len() as int), id) && has_id(dst + moved, id)),
        forall|id: u64|
            #![trigger has_id(src.subrange(k, src.len() as int), id)]
            has_id(src.subrange(k, src.len() as int), id) ==> has_id(src, id),
        forall|id: u64|
            #![trigger has_id(dst + moved, id)]
            has_id(dst + moved, id) ==> has_id(dst, id) || has_id(src, id),
{
    let rest = src.subrange(k, src.len() as int);
    let head = src.subrange(0, k);
    let grown = dst + moved;
    assert forall|i: int, j: int| 0 <= i < j < rest.len() implies (#[trigger] rest[i]).id != (
    #[trigger] rest[j]).id by {
        assert(src[i + k].id != src[j + k].id);
    }
    assert forall|id: u64| #![trigger has_id(rest, id)] has_id(rest, id) implies has_id(
        src,
        id,
    ) by {
        let i = choose|i: int| 0 <= i < rest.len() && (#[trigger] rest[i]).id == id;
        assert(src[i + k].id == id);
    }
    assert forall|id: u64| #![trigger has_id(grown, id)] has_id(grown, id) implies has_id(dst, id)
        || has_id(src, id) by {
        let i = choose|i: int| 0 <= i < grown.len() && (#[trigger] grown[i]).id == id;
        if i < dst.len() {
            assert(dst[i].id == id);
        } else {
            assert(moved[i - dst.len()].id == src[i - dst.len()].id);
            assert(src[i - dst.len()].id == id);
        }
    }
    assert forall|i: int, j: int| 0 <= i < j < grown.len() implies (#[trigger] grown[i]).id != (
    #[trigger] grown[j]).id by {
        let d = dst.len() as int;
        if j < d {
            assert(dst[i].id != dst[j].id);
        } else if i < d {
            assert(moved[j - d].id == src[j - d].id);
            assert(dst[i].id == grown[i].id);
            assert(src[j - d].id == grown[j].id);
            assert(has_id(dst, dst[i].id));
            assert(has_id(src, src[j - d].id));
        } else {
            assert(moved[i - d].id == src[i - d].id);
            assert(moved[j - d].id == src[j - d].id);
            assert(src[i - d].id != src[j - d].id);
        }
    }
    assert forall|id: u64|
        #![trigger has_id(rest, id)]
        #![trigger has_id(grown, id)]
        !(has_id(rest, id) && has_id(grown, id)) by {
        if has_id(rest, id) && has_id(grown, id) {
            let a = choose|a: int| 0 <= a < rest.len() && (#[trigger] rest[a]).id == id;
            let b = choose|b: int| 0 <= b < grown.len() && (#[trigger] grown[b]).id == id;
            assert(src[a + k].id == id);
            assert(has_id(src, id));
            if b < dst.len() {
                assert(dst[b].id == id);
                assert(has_id(dst, id));
            } else {
                let c = b - dst.len();
                assert(moved[c].id == src[c].id);
                assert(src[c].id != src[a + k].id);
            }
        }
    }
}

/// Whether every record of the sequence is in the given state.
pub open spec fn all_in(records: Seq<RecordView>, state: RecordState) -> bool {
    forall|i: int| 0 <= i < records.len() ==> (#[trigger] records[i]).state == state
}

/// Putting a record with a new identifier into a sequence keeps the
/// identifiers distinct, adds just that identifier, and keeps the states
/// uniform if the record has the state of the others.
pub proof fn lemma_insert_record(s: Seq<RecordView>, p: int, x: RecordView)
    requires
        0 <= p <= s.len(),
        !has_id(s, x.id),
    ensures
        distinct_ids(s) ==> distinct_ids(s.insert(p, x)),
        forall|id: u64|
            #![trigger has_id(s.insert(p, x), id)]
            #![trigger has_id(s, id)]
            has_id(s.insert(p, x), id) <==> has_id(s, id) || id == x.id,
        has_id(s.insert(p, x), x.id),
        forall|st: RecordState|
            #![trigger all_in(s.insert(p, x), st)]
            all_in(s, st) && x.state == st ==> all_in(s.insert(p, x), st),
{
    let s2 = s.insert(p, x);
    if distinct_ids(s) {
        assert forall|i: int, j: int| 0 <= i < j < s2.len() implies (#[trigger] s2[i]).id != (
        #[trigger] s2[j]).id by {
            let a = if i < p { i } else { i - 1 };
            let b = if j < p { j } else { j - 1 };
            if i == p {
                assert(s[b].id != x.id);
            } else if j == p {
                assert(s[a].id != x.id);
            } else {
                assert(s[a].id != s[b].id);
            }
        }
    }
    assert forall|id: u64| has_id(s2, id) <==> has_id(s, id) || id == x.id by {
        if has_id(s2, id) {
            let k = choose|k: int| 0 <= k < s2.len() && (#[trigger] s2[k]).id == id;
            if k < p {
                assert(s[k].id == id);
            } else if k > p {
                assert(s[k - 1].id == id);
            }
        }
        if has_id(s, id) {
            let k = choose|k: int| 0 <= k < s.len() && (#[trigger] s[k]).id == id;
            if k < p {
                assert(s2[k].id == id);
            } else {
                assert(s2[k + 1].id == id);
            }
        }
        if id == x.id {
            assert(s2[p].id == id);
        }
    }
    assert forall|st: RecordState| all_in(s, st) && x.state == st implies all_in(s2, st) by {
        assert forall|i: int| 0 <= i < s2.len() implies (#[trigger] s2[i]).state == st by {
            if i < p {
                assert(s[i].state == st);
            } else if i > p {
                assert(s[i - 1].state == st);
            }
        }
    }
}

/// Taking a record out of a sequence with distinct identifiers leaves them
/// distinct, removes just its identifier, and keeps uniform states uniform.
pub proof fn lemma_remove_record(s: Seq<RecordView>, p: int)
    requires
        0 <= p < s.len(),
        distinct_ids(s),
    ensures
        distinct_ids(s.remove(p)),
        forall|id: u64|
            #![trigger has_id(s.remove(p), id)]
            #![trigger has_id(s, id)]
            has_id(s.remove(p), id) <==> has_id(s, id) && id != s[p].id,
        !has_id(s.remove(p), s[p].id),
        forall|st: RecordState|
            #![trigger all_in(s.remove(p), st)]
            all_in(s, st) ==> all_in(s.remove(p), st),
{
    let s2 = s.remove(p);
    assert forall|i: int, j: int| 0 <= i < j < s2.len() implies (#[trigger] s2[i]).id != (
    #[trigger] s2[j]).id by {
        let a = if i < p { i } else { i + 1 };
        let b = if j < p { j } else { j + 1 };
        assert(s[a].id != s[b].id);
    }
    assert forall|id: u64| has_id(s2, id) <==> has_id(s, id) && id != s[p].id by {
        if has_id(s2, id) {
            let k = choose|k: int| 0 <= k < s2.len() && (#[trigger] s2[k]).id == id;
            let a = if k < p { k } else { k + 1 };
            assert(s[a].id == id);
            if a < p {
                assert(s[a].id != s[p].id);
            } else {
                assert(s[p].id != s[a].id);
            }
        }
        if has_id(s, id) && id != s[p].id {
            let k = choose|k: int| 0 <= k < s.len() && (#[trigger] s[k]).id == id;
            if k < p {
                assert(s2[k].id == id);
            } else {
                assert(s2[k - 1].id == id);
            }
        }
    }
    assert forall|st: RecordState| all_in(s, st) implies all_in(s2, st) by {
        assert forall|i: int| 0 <= i < s2.len() implies (#[trigger] s2[i]).state == st by {
            let a = if i < p { i } else { i + 1 };
            assert(s[a].state == st);
        }
    }
}

/// Two sequences share no identifier exactly when no identifier of the one
/// occurs in the other.
pub proof fn lemma_disjoint_by_id(a: Seq<RecordView>, b: Seq<RecordView>)
    ensures
        disjoint_ids(a, b) <==> forall|id: u64|
            #![trigger has_id(a, id)]
            #![trigger has_id(b, id)]
            !(has_id(a, id) && has_id(b, id)),
{
    if disjoint_ids(a, b) {
        assert forall|id: u64| !(has_id(a, id) && has_id(b, id)) by {
            if has_id(a, id) && has_id(b, id) {
                let i = choose|i: int| 0 <= i < a.len() && (#[trigger] a[i]).id == id;
                let j = choose|j: int| 0 <= j < b.len() && (#[trigger] b[j]).id == id;
                assert(a[i].id != b[j].id);
            }
        }
    }
    if forall|id: u64| !(has_id(a, id) && has_id(b, id)) {
        assert forall|i: int, j: int| 0 <= i < a.len() && 0 <= j < b.len() implies (
        #[trigger] a[i]).id != (#[trigger] b[j]).id by {
            let id = a[i].id;
            assert(!(has_id(a, id) && has_id(b, id)));
        }
    }
}

/// A record that enters a sequence ordered by due time at the place found
/// for its due time leaves the sequence ordered.
pub proof fn lemma_insert_by_due(s: Seq<RecordView>, x: RecordView)
    requires
        by_due(s),
    ensures
        0 <= slot_for(s, x.due) <= s.len(),
        by_due(s.insert(slot_for(s, x.due), x)),
{
    lemma_slot_for(s, x.due);
    let p = slot_for(s, x.due);
    let s2 = s.insert(p, x);
    assert forall|i: int, j: int| 0 <= i < j < s2.len() implies s2[i].due <= s2[j].due by {
        let a = if i < p { i } else { i - 1 };
        let b = if j < p { j } else { j - 1 };
        if i == p {
            assert(s[b].due > x.due);
        } else if j == p {
            assert(s[a].due <= x.due);
        } else {
            assert(s[a].due <= s[b].due);
        }
    }
}

/// The conditions on the three parts of a queue under which it is well
/// formed.
pub open spec fn parts_wf(r: Seq<RecordView>, d: Seq<RecordView>, f: Seq<RecordView>) -> bool {
    &&& all_in(r, RecordState::Queued)
    &&& all_in(d, RecordState::Delayed)
    &&& all_in(f, RecordState::InFlight)
    &&& by_due(d)
    &&& distinct_ids(r)
    &&& distinct_ids(d)
    &&& distinct_ids(f)
    &&& forall|id: u64|
        #![trigger has_id(r, id)]
        #![trigger has_id(d, id)]
        !(has_id(r, id) && has_id(d, id))
    &&& forall|id: u64|
        #![trigger has_id(r, id)]
        #![trigger has_id(f, id)]
        !(has_id(r, id) && has_id(f, id))
    &&& forall|id: u64|
        #![trigger has_id(d, id)]
        #![trigger has_id(f, id)]
        !(has_id(d, id) && has_id(f, id))
}

/// Stating the conditions part by part is the same as stating them of the
/// whole.
pub proof fn lemma_parts_wf(r: Seq<RecordView>, d: Seq<RecordView>, f: Seq<RecordView>)
    ensures
        parts_wf(r, d, f) <==> {
            &&& all_in(r, RecordState::Queued)
            &&& all_in(d, RecordState::Delayed)
            &&& all_in(f, RecordState::InFlight)
            &&& by_due(d)
            &&& distinct_ids(r + d + f)
        },
{
    lemma_distinct_parts(r, d, f);
    lemma_disjoint_by_id(r, d);
    lemma_disjoint_by_id(r, f);
    lemma_disjoint_by_id(d, f);
}

/// An attempt that the transport is to make now.
#[derive(Debug)]
pub struct Dispatch {
    /// The record to deliver, as it stands while in flight.
    pub record: MessageRecord,
    /// The slot of the destination's pool that the attempt holds.
    pub slot: usize,
    /// Whether the slot came with an open connection.
    pub reuses_connection: bool,
    /// The time that the transport may spend on connecting.
    pub connect_timeout: u64,
}

/// A dispatch as plain values.
pub struct DispatchView {
    pub record: RecordView,
    pub slot: int,
    pub reuses_connection: bool,
    pub connect_timeout: u64,
}

impl View for Dispatch {
    type V = DispatchView;

    open spec fn view(&self) -> DispatchView {
        DispatchView {
            record: self.record@,
            slot: self.slot as int,
            reuses_connection: self.reuses_connection,
            connect_timeout: self.connect_timeout,
        }
    }
}

/// The dispatch that belongs to a record in flight and its permit.
pub open spec fn dispatch_of(record: RecordView, permit: PermitView) -> DispatchView {
    DispatchView {
        record,
        slot: permit.slot,
        reuses_connection: permit.reused,
        connect_timeout: permit.connect_timeout,
    }
}

/// The views of a sequence of dispatches.
pub open spec fn dispatch_views(out: Seq<Dispatch>) -> Seq<DispatchView> {
    out.map_values(|d: Dispatch| d@)
}

/// What became of a record whose attempt has ended.
#[derive(Debug)]
pub struct Completion {
    /// The record after the outcome was applied.
    pub record: MessageRecord,
    /// What the spool has to do to make that state durable.
    pub instruction: SpoolInstruction,
    /// Whether the permit of the attempt was still outstanding when it came
    /// back.
    pub permit_released: bool,
}

/// How many attempts start when `ready` is the ready set and the
/// destination's pool is `pool`: one for each leading record that is due,
/// as far as the pool has room.
pub open spec fn dispatch_count(
    ready: Seq<RecordView>,
    pool: Seq<Slot>,
    site: DestSiteConfig,
    now: u64,
) -> nat {
    let due = leading_due(ready, now);
    let room = site.max_connections - busy_count(pool);
    if room <= 0 {
        0
    } else if due <= room {
        due
    } else {
        room as nat
    }
}

/// The place of the record with the identifier in a sequence that holds it.
pub open spec fn index_of_id(records: Seq<RecordView>, id: u64) -> int {
    choose|i: int| 0 <= i < records.len() && (#[trigger] records[i]).id == id
}

/// An attempt that is running: the record and the permit it holds.
#[derive(Debug)]
struct Attempt {
    record: MessageRecord,
    permit: Permit,
}

/// Why a record was not admitted.
#[derive(Clone, Copy, Debug, PartialEq, Eq, Structural)]
pub enum AdmitError {
    /// The record is already delivered or bounced.
    Terminal,
    /// The queue already owns a record with this identifier.
    Duplicate,
}

/// Why an outcome was not applied.
#[derive(Clone, Copy, Debug, PartialEq, Eq, Structural)]
pub enum CompleteError {
    /// The queue has no attempt in flight for this identifier.
    NotInFlight,
}

/// The queue of one routing key.
#[derive(Debug)]
pub struct Queue {
    key: String,
    config: QueueConfig,
    ready: VecDeque<MessageRecord>,
    delayed: VecDeque<MessageRecord>,
    flying: Vec<Attempt>,
}

/// A queue as plain values.
pub struct QueueView {
    /// The routing key that the queue serves.
    pub key: Seq<char>,
    pub config: QueueConfig,
    /// The ready set, in order of admission.
    pub ready: Seq<RecordView>,
    /// The delayed set, in order of due time.
    pub delayed: Seq<RecordView>,
    /// The records in flight, in the order in which their attempts started.
    pub in_flight: Seq<RecordView>,
    /// The permits of the records in flight, in the same order.
    pub permits: Seq<PermitView>,
}

impl QueueView {
    /// Every record of the queue, wherever it stands.
    pub open spec fn records(self) -> Seq<RecordView> {
        self.ready + self.delayed + self.in_flight
    }

    /// Whether the queue owns a record with the identifier.
    pub open spec fn owns(self, id: u64) -> bool {
        has_id(self.records(), id)
    }

    /// The state of each record says where it stands, the delayed set is in
    /// order of due time, every record in flight has its permit, and no
    /// identifier occurs twice.
    pub open spec fn wf(self) -> bool {
        &&& self.config.wf()
        &&& all_in(self.ready, RecordState::Queued)
        &&& all_in(self.delayed, RecordState::Delayed)
        &&& all_in(self.in_flight, RecordState::InFlight)
        &&& by_due(self.delayed)
        &&& self.permits.len() == self.in_flight.len()
        &&& forall|i: int|
            0 <= i < self.permits.len() ==> (#[trigger] self.permits[i]).key == self.key
        &&& distinct_ids(self.records())
    }

    /// Whether a record is taken in: it must not be terminal, and its
    /// identifier must be new to the queue.
    pub open spec fn admits(self, record: RecordView) -> bool {
        !record.state.is_terminal() && !self.owns(record.id)
    }

    /// The queue after a record was offered to it at `now`: a record that is
    /// taken in joins the ready set if it is due, else the delayed set at
    /// the place its due time gives it.
    pub open spec fn admitted(self, record: RecordView, now: u64) -> QueueView {
        if !self.admits(record) {
            self
        } else if record.due <= now {
            QueueView { ready: self.ready.push(queued(record)), ..self }
        } else {
            QueueView {
                delayed: self.delayed.insert(slot_for(self.delayed, record.due), delayed(record)),
                ..self
            }
        }
    }

    /// The queue after every delayed record that is due at `now` has moved
    /// to the end of the ready set, earliest due first.
    pub open spec fn promoted(self, now: u64) -> QueueView {
        let moved = leading_due(self.delayed, now) as int;
        QueueView {
            ready: self.ready + self.delayed.subrange(0, moved).map_values(
                |r: RecordView| queued(r),
            ),
            delayed: self.delayed.subrange(moved, self.delayed.len() as int),
            ..self
        }
    }

    /// The queue after attempts were started for the leading ready records
    /// that are due, as far as the destination's pool has room.
    pub open spec fn dispatched(self, now: u64, pool: Seq<Slot>, site: DestSiteConfig)
        -> QueueView {
        let n = dispatch_count(self.ready, pool, site, now);
        QueueView {
            ready: self.ready.subrange(n as int, self.ready.len() as int),
            in_flight: self.in_flight + self.ready.subrange(0, n as int).map_values(
                |r: RecordView| flying(r),
            ),
            permits: self.permits + granted_permits(self.key, pool, site, now, n),
            ..self
        }
    }

    /// The attempts that a dispatch starts, in order.
    pub open spec fn dispatches(self, now: u64, pool: Seq<Slot>, site: DestSiteConfig) -> Seq<
        DispatchView,
    > {
        let n = dispatch_count(self.ready, pool, site, now);
        Seq::new(
            n,
            |i: int|
                dispatch_of(
                    flying(self.ready[i]),
                    granted_permits(self.key, pool, site, now, n)[i],
                ),
        )
    }

    /// The record with the identifier as its attempt's outcome leaves it.
    pub open spec fn resolution(self, id: u64, outcome: AttemptOutcome, now: u64) -> RecordView {
        self.config.resolved(self.in_flight[index_of_id(self.in_flight, id)], outcome, now)
    }

    /// The queue after the attempt for a record ended: the record has left
    /// the records in flight, and is back in the delayed set if the outcome
    /// delays it. Without an attempt in flight for the identifier the queue
    /// stays as it is.
    pub open spec fn completed(self, id: u64, outcome: AttemptOutcome, now: u64) -> QueueView {
        if !has_id(self.in_flight, id) {
            self
        } else {
            let at = index_of_id(self.in_flight, id);
            let after = self.resolution(id, outcome, now);
            QueueView {
                in_flight: self.in_flight.remove(at),
                permits: self.permits.remove(at),
                delayed: if after.state == RecordState::Delayed {
                    self.delayed.insert(slot_for(self.delayed, after.due), after)
                } else {
                    self.delayed
                },
                ..self
            }
        }
    }
    /// A queue owns after an offer what it owned before, and the offered
    /// record if it took it in.
    pub proof fn lemma_admitted_owns(self, record: RecordView, now: u64, id: u64)
        ensures
            self.admitted(record, now).owns(id) <==> self.owns(id) || (self.admits(record) && id
                == record.id),
            self.admitted(record, now).in_flight == self.in_flight,
            self.admitted(record, now).key == self.key,
    {
        let after = self.admitted(record, now);
        lemma_has_id_parts(self.ready, self.delayed, self.in_flight, id);
        lemma_has_id_parts(after.ready, after.delayed, after.in_flight, id);
        if self.admits(record) {
            lemma_has_id_parts(self.ready, self.delayed, self.in_flight, record.id);
            if record.due <= now {
                assert(self.ready.push(queued(record)) =~= self.ready.insert(
                    self.ready.len() as int,
                    queued(record),
                ));
                lemma_insert_record(self.ready, self.ready.len() as int, queued(record));
            } else {
                let d = self.delayed;
                let p = slot_for(d, record.due);
                Self::lemma_slot_in_range(d, record.due);
                lemma_insert_record(d, p, delayed(record));
            }
        }
    }

    /// The place for a new record lies within the sequence or at its end.
    pub proof fn lemma_slot_in_range(records: Seq<RecordView>, due: u64)
        ensures
            0 <= slot_for(records, due) <= records.len(),
        decreases records.len(),
    {
        if records.len() > 0 && records.last().due > due {
            Self::lemma_slot_in_range(records.drop_last(), due);
        }
    }

    /// A scheduling step moves records within the queue: the queue owns
    /// after it just what it owned before.
    pub proof fn lemma_ticked_owns(
        self,
        now: u64,
        pool: Seq<Slot>,
        site: DestSiteConfig,
        id: u64,
    )
        ensures
            self.promoted(now).dispatched(now, pool, site).owns(id) <==> self.owns(id),
            self.promoted(now).dispatched(now, pool, site).key == self.key,
    {
        let mid = self.promoted(now);
        let after = mid.dispatched(now, pool, site);
        let moved = leading_due(self.delayed, now) as int;
        lemma_leading_due(self.delayed, now);
        lemma_leading_due(mid.ready, now);
        let n = dispatch_count(mid.ready, pool, site, now) as int;
        let risen = self.delayed.subrange(0, moved);
        let risen_q = risen.map_values(|r: RecordView| queued(r));
        let started = mid.ready.subrange(0, n);
        let started_f = started.map_values(|r: RecordView| flying(r));
        lemma_has_id_parts(self.ready, self.delayed, self.in_flight, id);
        lemma_has_id_parts(after.ready, after.delayed, after.in_flight, id);
        lemma_has_id_split(self.delayed, moved, id);
        lemma_has_id_same(risen, risen_q, id);
        lemma_has_id_concat(self.ready, risen_q, id);
        lemma_has_id_split(mid.ready, n, id);
        lemma_has_id_same(started, started_f, id);
        lemma_has_id_concat(self.in_flight, started_f, id);
    }

    /// The end of an attempt takes at most the attempt's record out of the
    /// queue: the queue owns after it what it owned before, except a record
    /// that the outcome delivered or bounced.
    pub proof fn lemma_completed_owns(self, id: u64, outcome: AttemptOutcome, now: u64, other: u64)
        requires
            self.wf(),
        ensures
            self.completed(id, outcome, now).owns(other) <==> self.owns(other) && !(other == id
                && has_id(self.in_flight, id) && self.resolution(id, outcome, now).state
                != RecordState::Delayed),
            self.completed(id, outcome, now).key == self.key,
            has_id(self.completed(id, outcome, now).in_flight, other) <==> has_id(
                self.in_flight,
                other,
            ) && other != id,
    {
        let after = self.completed(id, outcome, now);
        lemma_has_id_parts(self.ready, self.delayed, self.in_flight, other);
        lemma_has_id_parts(after.ready, after.delayed, after.in_flight, other);
        lemma_parts_wf(self.ready, self.delayed, self.in_flight);
        if has_id(self.in_flight, id) {
            let at = index_of_id(self.in_flight, id);
            let rec = self.resolution(id, outcome, now);
            self.config.lemma_resolved_shape(self.in_flight[at], outcome, now);
            lemma_remove_record(self.in_flight, at);
            assert(has_id(self.in_flight, id));
            if rec.state == RecordState::Delayed {
                Self::lemma_slot_in_range(self.delayed, rec.due);
                lemma_insert_record(self.delayed, slot_for(self.delayed, rec.due), rec);
            }
        }
    }
    /// An offer leaves a well-formed queue well formed.
    pub proof fn lemma_admitted_wf(self, record: RecordView, now: u64)
        requires
            self.wf(),
        ensures
            self.admitted(record, now).wf(),
    {
        let after = self.admitted(record, now);
        if self.admits(record) {
            lemma_parts_wf(self.ready, self.delayed, self.in_flight);
            lemma_has_id_parts(self.ready, self.delayed, self.in_flight, record.id);
            if record.due <= now {
                let at = self.ready.len() as int;
                assert(self.ready.push(queued(record)) =~= self.ready.insert(at, queued(record)));
                lemma_insert_record(self.ready, at, queued(record));
            } else {
                lemma_insert_by_due(self.delayed, delayed(record));
                lemma_insert_record(
                    self.delayed,
                    slot_for(self.delayed, record.due),
                    delayed(record),
                );
            }
            lemma_parts_wf(after.ready, after.delayed, after.in_flight);
        }
    }

    /// Promotion leaves a well-formed queue well formed, and leaves no
    /// delayed record that is due.
    pub proof fn lemma_promoted_wf(self, now: u64)
        requires
            self.wf(),
        ensures
            self.promoted(now).wf(),
            forall|i: int|
                0 <= i < self.promoted(now).delayed.len() ==> (#[trigger] self.promoted(
                    now,
                ).delayed[i]).due > now,
    {
        let after = self.promoted(now);
        let k = leading_due(self.delayed, now) as int;
        lemma_leading_due(self.delayed, now);
        let moved = self.delayed.subrange(0, k).map_values(|r: RecordView| queued(r));
        lemma_parts_wf(self.ready, self.delayed, self.in_flight);
        lemma_move_prefix(self.delayed, self.ready, k, moved);
        assert forall|i: int| 0 <= i < after.ready.len() implies (#[trigger] after.ready[i]).state
            == RecordState::Queued by {
            if i < self.ready.len() {
                assert(self.ready[i].state == RecordState::Queued);
            }
        }
        assert forall|i: int| 0 <= i < after.delayed.len() implies (
        #[trigger] after.delayed[i]).state == RecordState::Delayed by {
            assert(self.delayed[i + k].state == RecordState::Delayed);
        }
        assert forall|i: int, j: int| 0 <= i < j < after.delayed.len() implies after.delayed[i].due
            <= after.delayed[j].due by {
            assert(self.delayed[i + k].due <= self.delayed[j + k].due);
        }
        assert forall|i: int| 0 <= i < after.delayed.len() implies (
        #[trigger] after.delayed[i]).due > now by {
            assert(self.delayed[i + k].due > now);
        }
        lemma_parts_wf(after.ready, after.delayed, after.in_flight);
    }

    /// A dispatch leaves a well-formed queue well formed, starts no attempt
    /// for a record that is not due, and starts no more attempts than the
    /// destination has room for.
    pub proof fn lemma_dispatched_wf(self, now: u64, pool: Seq<Slot>, site: DestSiteConfig)
        requires
            self.wf(),
        ensures
            self.dispatched(now, pool, site).wf(),
            dispatch_count(self.ready, pool, site, now) <= self.ready.len(),
            busy_count(pool) + dispatch_count(self.ready, pool, site, now) <= site.max_connections
                || dispatch_count(self.ready, pool, site, now) == 0,
            forall|i: int|
                0 <= i < dispatch_count(self.ready, pool, site, now) ==> (
                #[trigger] self.ready[i]).due <= now,
    {
        let after = self.dispatched(now, pool, site);
        let n = dispatch_count(self.ready, pool, site, now) as int;
        lemma_leading_due(self.ready, now);
        let moved = self.ready.subrange(0, n).map_values(|r: RecordView| flying(r));
        lemma_parts_wf(self.ready, self.delayed, self.in_flight);
        lemma_move_prefix(self.ready, self.in_flight, n, moved);
        assert forall|i: int| 0 <= i < after.ready.len() implies (#[trigger] after.ready[i]).state
            == RecordState::Queued by {
            assert(self.ready[i + n].state == RecordState::Queued);
        }
        assert forall|i: int| 0 <= i < after.in_flight.len() implies (
        #[trigger] after.in_flight[i]).state == RecordState::InFlight by {
            if i < self.in_flight.len() {
                assert(self.in_flight[i].state == RecordState::InFlight);
            }
        }
        assert forall|i: int| 0 <= i < after.permits.len() implies (#[trigger] after.permits[i]).key
            == after.key by {
            if i < self.permits.len() {
                assert(self.permits[i].key == self.key);
            }
        }
        lemma_parts_wf(after.ready, after.delayed, after.in_flight);
    }

    /// The end of an attempt leaves a well-formed queue well formed.
    pub proof fn lemma_completed_wf(self, id: u64, outcome: AttemptOutcome, now: u64)
        requires
            self.wf(),
        ensures
            self.completed(id, outcome, now).wf(),
    {
        let after = self.completed(id, outcome, now);
        if has_id(self.in_flight, id) {
            let at = index_of_id(self.in_flight, id);
            let rec = self.resolution(id, outcome, now);
            self.config.lemma_resolved_shape(self.in_flight[at], outcome, now);
            lemma_parts_wf(self.ready, self.delayed, self.in_flight);
            lemma_remove_record(self.in_flight, at);
            if rec.state == RecordState::Delayed {
                lemma_insert_by_due(self.delayed, rec);
                lemma_insert_record(self.delayed, slot_for(self.delayed, rec.due), rec);
            }
            assert forall|i: int| 0 <= i < after.permits.len() implies (
            #[trigger] after.permits[i]).key == after.key by {
                let a = if i < at { i } else { i + 1 };
                assert(self.permits[a].key == self.key);
            }
            lemma_parts_wf(after.ready, after.delayed, after.in_flight);
        }
    }
}

impl View for Queue {
    type V = QueueView;

    closed spec fn view(&self) -> QueueView {
        QueueView {
            key: self.key@,
            config: self.config,
            ready: views(self.ready@),
            delayed: views(self.delayed@),
            in_flight: self.flying@.map_values(|a: Attempt| a.record@),
            permits: self.flying@.map_values(|a: Attempt| a.permit@),
        }
    }
}

impl Queue {
    /// No record is held twice and every record stands where its state says.
    pub open spec fn wf(&self) -> bool {
        self@.wf()
    }

    /// An empty queue.
    pub fn new(key: String, config: QueueConfig) -> (queue: Self)
        requires
            config.wf(),
        ensures
            queue.wf(),
            queue@ == (QueueView {
                key: key@,
                config,
                ready: Seq::empty(),
                delayed: Seq::empty(),
                in_flight: Seq::empty(),
                permits: Seq::empty(),
            }),
    {
        let queue = Queue {
            key,
            config,
            ready: VecDeque::new(),
            delayed: VecDeque::new(),
            flying: Vec::new(),
        };
        assert(queue@.ready =~= Seq::<RecordView>::empty());
        assert(queue@.delayed =~= Seq::<RecordView>::empty());
        assert(queue@.in_flight =~= Seq::<RecordView>::empty());
        assert(queue@.permits =~= Seq::<PermitView>::empty());
        queue
    }

    /// Puts a new configuration in force. It governs the outcomes that are
    /// applied from now on.
    pub fn set_config(&mut self, config: QueueConfig)
        requires
            old(self).wf(),
            config.wf(),
        ensures
            final(self).wf(),
            final(self)@ == (QueueView { config, ..old(self)@ }),
    {
        self.config = config;
    }

    /// The configuration in force.
    pub fn config(&self) -> (config: QueueConfig)
        ensures
            config == self@.config,
    {
        self.config
    }

    /// The routing key that the queue serves.
    pub fn routing_key(&self) -> (key: &String)
        ensures
            key@ == self@.key,
    {
        &self.key
    }

    /// The number of records in the ready set.
    pub fn ready_len(&self) -> (n: usize)
        ensures
            n == self@.ready.len(),
    {
        self.ready.len()
    }

    /// The number of records in the delayed set.
    pub fn delayed_len(&self) -> (n: usize)
        ensures
            n == self@.delayed.len(),
    {
        self.delayed.len()
    }

    /// The number of records in flight.
    pub fn in_flight_len(&self) -> (n: usize)
        ensures
            n == self@.in_flight.len(),
    {
        self.flying.len()
    }

    /// Whether the queue has no attempt in flight.
    pub fn is_idle(&self) -> (idle: bool)
        ensures
            idle == (self@.in_flight.len() == 0),
    {
        self.flying.len() == 0
    }

    /// Whether the queue owns no record at all.
    pub fn is_empty(&self) -> (empty: bool)
        ensures
            empty == (self@.records().len() == 0),
    {
        self.ready.len() == 0 && self.delayed.len() == 0 && self.flying.len() == 0
    }

    fn position(records: &VecDeque<MessageRecord>, id: u64) -> (at: Option<usize>)
        ensures
            match at {
                Some(i) => i < records@.len() && records@[i as int].id == id,
                None => !has_id(views(records@), id),
            },
    {
        let n: usize = records.len();
        let mut i: usize = 0;
        while i < n
            invariant
                n == records@.len(),
                i <= n,
                forall|j: int| 0 <= j < i ==> (#[trigger] views(records@)[j]).id != id,
            decreases n - i,
        {
            if records[i].id == id {
                return Some(i);
            }
            i = i + 1;
        }
        None
    }

    fn flying_position(&self, id: u64) -> (at: Option<usize>)
        ensures
            match at {
                Some(i) => i < self@.in_flight.len() && self@.in_flight[i as int].id == id,
                None => !has_id(self@.in_flight, id),
            },
    {
        let n: usize = self.flying.len();
        let mut i: usize = 0;
        while i < n
            invariant
                n == self.flying@.len(),
                i <= n,
                forall|j: int| 0 <= j < i ==> (#[trigger] self@.in_flight[j]).id != id,
            decreases n - i,
        {
            if self.flying[i].record.id == id {
                return Some(i);
            }
            i = i + 1;
        }
        None
    }

    fn ids_of(records: &VecDeque<MessageRecord>) -> (ids: Vec<u64>)
        ensures
            ids@ == ids_in(views(records@)),
    {
        let n: usize = records.len();
        let mut ids: Vec<u64> = Vec::with_capacity(n);
        let mut i: usize = 0;
        while i < n
            invariant
                n == records@.len(),
                i <= n,
                ids.len() == i,
                forall|j: int| 0 <= j < i ==> (#[trigger] ids@[j]) == records@[j].id,
            decreases n - i,
        {
            ids.push(records[i].id);
            i = i + 1;
        }
        proof {
            assert(ids@ =~= ids_in(views(records@)));
        }
        ids
    }

    /// The identifiers of the ready set, in order of admission.
    pub fn ready_ids(&self) -> (ids: Vec<u64>)
        ensures
            ids@ == ids_in(self@.ready),
    {
        Self::ids_of(&self.ready)
    }

    /// The identifiers of the delayed set, in order of due time.
    pub fn delayed_ids(&self) -> (ids: Vec<u64>)
        ensures
            ids@ == ids_in(self@.delayed),
    {
        Self::ids_of(&self.delayed)
    }

    /// The identifiers of the records in flight, in the order in which
    /// their attempts started.
    pub fn in_flight_ids(&self) -> (ids: Vec<u64>)
        ensures
            ids@ == ids_in(self@.in_flight),
    {
        let n: usize = self.flying.len();
        let mut ids: Vec<u64> = Vec::with_capacity(n);
        let mut i: usize = 0;
        while i < n
            invariant
                n == self.flying@.len(),
                i <= n,
                ids.len() == i,
                forall|j: int| 0 <= j < i ==> (#[trigger] ids@[j]) == self.flying@[j].record.id,
            decreases n - i,
        {
            ids.push(self.flying[i].record.id);
            i = i + 1;
        }
        proof {
            assert(ids@ =~= ids_in(self@.in_flight));
        }
        ids
    }

    /// What the record with the identifier would be after its attempt ended
    /// with the outcome, if the queue has an attempt in flight for it.
    /// Nothing changes.
    pub fn preview(&self, id: u64, outcome: AttemptOutcome, now: u64) -> (after: Option<
        MessageRecord,
    >)
        requires
            self.wf(),
        ensures
            after is Some <==> has_id(self@.in_flight, id),
            after matches Some(r) ==> r@ == self@.resolution(id, outcome, now),
    {
        match self.flying_position(id) {
            Some(at) => {
                proof {
                    let f = self@.in_flight;
                    lemma_parts_wf(self@.ready, self@.delayed, f);
                    let k = index_of_id(f, id);
                    if k < at {
                        assert(f[k].id != f[at as int].id);
                    } else if at < k {
                        assert(f[at as int].id != f[k].id);
                    }
                }
                Some(self.config.resolve(self.flying[at].record.duplicate(), outcome, now))
            },
            None => None,
        }
    }

    /// Whether the queue has an attempt in flight for the identifier.
    pub fn has_in_flight(&self, id: u64) -> (flying: bool)
        ensures
            flying == has_id(self@.in_flight, id),
    {
        self.flying_position(id).is_some()
    }

    /// Whether the queue owns a record with the identifier.
    pub fn contains(&self, id: u64) -> (owned: bool)
        ensures
            owned == self@.owns(id),
    {
        let a = Self::position(&self.ready, id);
        let b = Self::position(&self.delayed, id);
        let c = self.flying_position(id);
        proof {
            lemma_has_id_parts(self@.ready, self@.delayed, self@.in_flight, id);
            if let Some(i) = a {
                assert(self@.ready[i as int].id == id);
            }
            if let Some(i) = b {
                assert(self@.delayed[i as int].id == id);
            }
        }
        a.is_some() || b.is_some() || c.is_some()
    }

    /// Appends a record to the ready set.
    fn push_ready(&mut self, record: MessageRecord)
        requires
            old(self).wf(),
            !old(self)@.owns(record.id),
            record.state == RecordState::Queued,
        ensures
            final(self).wf(),
            final(self)@.key == old(self)@.key,
            final(self)@.config == old(self)@.config,
            final(self)@.ready == old(self)@.ready.push(record@),
            final(self)@.delayed == old(self)@.delayed,
            final(self)@.in_flight == old(self)@.in_flight,
            final(self)@.permits == old(self)@.permits,
    {
        let ghost r = self@.ready;
        let ghost d = self@.delayed;
        let ghost f = self@.in_flight;
        self.ready.push_back(record);
        proof {
            let r2 = self@.ready;
            assert(r2 =~= r.push(record@));
            assert(r.push(record@) =~= r.insert(r.len() as int, record@));
            lemma_parts_wf(r, d, f);
            lemma_has_id_parts(r, d, f, record.id);
            lemma_insert_record(r, r.len() as int, record@);
            lemma_parts_wf(r2, d, f);
        }
    }

    /// Puts a record into the delayed set, behind every record that is due
    /// no later.
    fn insert_delayed(&mut self, record: MessageRecord)
        requires
            old(self).wf(),
            !old(self)@.owns(record.id),
            record.state == RecordState::Delayed,
        ensures
            final(self).wf(),
            final(self)@.key == old(self)@.key,
            final(self)@.config == old(self)@.config,
            final(self)@.ready == old(self)@.ready,
            final(self)@.delayed == old(self)@.delayed.insert(
                slot_for(old(self)@.delayed, record.due),
                record@,
            ),
            final(self)@.in_flight == old(self)@.in_flight,
            final(self)@.permits == old(self)@.permits,
    {
        let ghost r = self@.ready;
        let ghost d = self@.delayed;
        let ghost f = self@.in_flight;
        let due: u64 = record.due;
        let mut at: usize = self.delayed.len();
        proof {
            assert(d.subrange(0, d.len() as int) =~= d);
        }
        while at > 0 && self.delayed[at - 1].due > due
            invariant
                at <= self.delayed@.len(),
                d == views(self.delayed@),
                slot_for(d, due) == slot_for(d.subrange(0, at as int), due),
            decreases at,
        {
            proof {
                assert(d.subrange(0, at as int).drop_last() =~= d.subrange(0, at - 1));
            }
            at = at - 1;
        }
        proof {
            lemma_insert_by_due(d, record@);
            assert(slot_for(d, due) == at);
        }
        self.delayed.insert(at, record);
        proof {
            let d2 = self@.delayed;
            assert(d2 =~= d.insert(at as int, record@));
            lemma_parts_wf(r, d, f);
            lemma_has_id_parts(r, d, f, record.id);
            lemma_insert_record(d, at as int, record@);
            lemma_parts_wf(r, d2, f);
        }
    }

    /// Takes a record into the queue: into the ready set if it is due at
    /// `now`, else into the delayed set at the place its due time gives it.
    ///
    /// A record in a terminal state is refused, and so is one whose
    /// identifier the queue already owns.
    pub fn admit_record(&mut self, record: MessageRecord, now: u64) -> (done: Result<(), AdmitError>)
        requires
            old(self).wf(),
        ensures
            final(self).wf(),
            final(self)@ == old(self)@.admitted(record@, now),
            match done {
                Ok(()) => old(self)@.admits(record@),
                Err(AdmitError::Terminal) => record@.state.is_terminal(),
                Err(AdmitError::Duplicate) => !record@.state.is_terminal() && old(self)@.owns(
                    record.id,
                ),
            },
    {
        if record.state.terminal() {
            return Err(AdmitError::Terminal);
        }
        if self.contains(record.id) {
            return Err(AdmitError::Duplicate);
        }
        let mut record = record;
        if record.due <= now {
            record.state = RecordState::Queued;
            self.push_ready(record);
        } else {
            record.state = RecordState::Delayed;
            self.insert_delayed(record);
        }
        Ok(())
    }

    /// Moves every delayed record that is due at `now` to the end of the
    /// ready set, earliest due first, and returns how many there were.
    pub fn promote(&mut self, now: u64) -> (moved: usize)
        requires
            old(self).wf(),
        ensures
            final(self).wf(),
            final(self)@ == old(self)@.promoted(now),
            moved == leading_due(old(self)@.delayed, now),
            forall|i: int|
                0 <= i < final(self)@.delayed.len() ==> (#[trigger] final(self)@.delayed[i]).due
                    > now,
    {
        let ghost r0 = self@.ready;
        let ghost d0 = self@.delayed;
        let ghost f0 = self@.in_flight;
        let ghost p0 = self@.permits;
        let ghost k0 = self@.key;
        let ghost c0 = self@.config;
        let total: usize = self.delayed.len();
        let mut moved: usize = 0;
        proof {
            lemma_leading_due(d0, now);
            assert(d0.subrange(0, d0.len() as int) =~= d0);
            assert(r0 + d0.subrange(0, 0).map_values(|r: RecordView| queued(r)) =~= r0);
        }
        while self.delayed.len() > 0 && self.delayed[0].due <= now
            invariant
                self.wf(),
                self@.key == k0,
                self@.config == c0,
                self@.in_flight == f0,
                self@.permits == p0,
                total == d0.len(),
                moved + self.delayed@.len() == total,
                leading_due(d0, now) == moved + leading_due(self@.delayed, now),
                self@.delayed == d0.subrange(moved as int, d0.len() as int),
                self@.ready == r0 + d0.subrange(0, moved as int).map_values(
                    |r: RecordView| queued(r),
                ),
            decreases self.delayed@.len(),
        {
            let ghost d = self@.delayed;
            let ghost r = self@.ready;
            proof {
                assert(d[0].due <= now);
            }
            let mut record = self.delayed.pop_front().unwrap();
            proof {
                let d1 = self@.delayed;
                assert(d1 =~= d.remove(0));
                assert(d1 =~= d.drop_first());
                assert(record@ == d[0]);
                lemma_parts_wf(r, d, f0);
                lemma_remove_record(d, 0);
                assert(by_due(d1)) by {
                    assert forall|i: int, j: int| 0 <= i < j < d1.len() implies d1[i].due
                        <= d1[j].due by {
                        assert(d[i + 1].due <= d[j + 1].due);
                    }
                }
                lemma_parts_wf(r, d1, f0);
                lemma_has_id_parts(r, d1, f0, record.id);
                assert(has_id(d, record.id));
            }
            record.state = RecordState::Queued;
            self.push_ready(record);
            moved = moved + 1;
            proof {
                assert(self@.delayed =~= d0.subrange(moved as int, d0.len() as int));
                assert(self@.ready =~= r0 + d0.subrange(0, moved as int).map_values(
                    |r: RecordView| queued(r),
                ));
            }
        }
        proof {
            lemma_leading_due(self@.delayed, now);
        }
        moved
    }

    /// Starts attempts for the records at the head of the ready set that
    /// are due at `now`, one after another in order of admission, until the
    /// destination refuses a permit.
    ///
    /// Each record that gets a permit goes in flight; the result lists them
    /// in order, each with what the transport needs to know of its permit.
    pub fn dispatch(&mut self, now: u64, sites: &mut SiteManager) -> (out: Vec<Dispatch>)
        requires
            old(self).wf(),
            old(sites).wf(),
        ensures
            final(self).wf(),
            final(sites).wf(),
            final(self)@ == old(self)@.dispatched(
                now,
                old(sites).pool(old(self)@.key),
                old(sites).config(old(self)@.key),
            ),
            dispatch_views(out@) == old(self)@.dispatches(
                now,
                old(sites).pool(old(self)@.key),
                old(sites).config(old(self)@.key),
            ),
            forall|i: int| 0 <= i < out.len() ==> (#[trigger] old(self)@.ready[i]).due <= now,
            out.len() <= old(self)@.ready.len(),
            final(sites).same_elsewhere(old(sites), old(self)@.key),
            final(sites).config(old(self)@.key) == old(sites).config(old(self)@.key),
            final(sites).has(old(self)@.key) == (old(sites).has(old(self)@.key) || leading_due(
                old(self)@.ready,
                now,
            ) > 0),
            final(sites).pool(old(self)@.key) == pool_after(
                old(sites).pool(old(self)@.key),
                old(sites).config(old(self)@.key),
                now,
                out.len() as nat,
            ),
            final(sites).in_flight(old(self)@.key) == old(sites).in_flight(old(self)@.key)
                + out.len(),
    {
        let ghost key = self@.key;
        let ghost r0 = self@.ready;
        let ghost d0 = self@.delayed;
        let ghost f0 = self@.in_flight;
        let ghost p0 = self@.permits;
        let ghost c0 = self@.config;
        let ghost sites0 = *sites;
        let ghost pool0 = sites.pool(key);
        let ghost site = sites.config(key);
        let total: usize = self.ready.len();
        let mut out: Vec<Dispatch> = Vec::new();
        let mut blocked: bool = false;
        let mut started: usize = 0;
        proof {
            lemma_leading_due(r0, now);
            sites.lemma_bound_enforced(key);
            assert(r0.subrange(0, r0.len() as int) =~= r0);
            assert(f0 + r0.subrange(0, 0).map_values(|r: RecordView| flying(r)) =~= f0);
            assert(p0 + granted_permits(key, pool0, site, now, 0) =~= p0);
        }
        while !blocked && self.ready.len() > 0 && self.ready[0].due <= now
            invariant
                self.wf(),
                sites.wf(),
                self@.key == key,
                self@.config == c0,
                self@.delayed == d0,
                total == r0.len(),
                started + self.ready@.len() == total,
                started == out.len(),
                leading_due(r0, now) == started + leading_due(self@.ready, now),
                self@.ready == r0.subrange(started as int, r0.len() as int),
                self@.in_flight == f0 + r0.subrange(0, started as int).map_values(
                    |r: RecordView| flying(r),
                ),
                self@.permits == p0 + granted_permits(key, pool0, site, now, started as nat),
                sites.same_elsewhere(&sites0, key),
                sites.config(key) == site,
                sites.pool(key) == pool_after(pool0, site, now, started as nat),
                busy_count(sites.pool(key)) == busy_count(pool0) + started,
                busy_count(sites.pool(key)) <= site.max_connections,
                sites.has(key) == (sites0.has(key) || started > 0 || blocked),
                blocked ==> busy_count(sites.pool(key)) >= site.max_connections,
                blocked ==> leading_due(self@.ready, now) > 0,
                forall|i: int|
                    0 <= i < started ==> (#[trigger] out[i])@ == dispatch_of(
                        flying(r0[i]),
                        granted_permits(key, pool0, site, now, started as nat)[i],
                    ),
            decreases self.ready@.len() + (if blocked { 0int } else { 1int }),
        {
            let ghost r = self@.ready;
            let ghost f = self@.in_flight;
            let ghost p = self@.permits;
            let ghost pool = sites.pool(key);
            proof {
                assert(r[0].due <= now);
                sites.lemma_bound_enforced(key);
                lemma_grant(pool, site, now);
            }
            match sites.acquire(&self.key, now) {
                Acquired::WouldBlock => {
                    blocked = true;
                },
                Acquired::Permit(permit) => {
                    let mut record = self.ready.pop_front().unwrap();
                    record.state = RecordState::InFlight;
                    let item = Dispatch {
                        record: record.duplicate(),
                        slot: permit.slot(),
                        reuses_connection: permit.reuses_connection(),
                        connect_timeout: permit.connect_timeout(),
                    };
                    out.push(item);
                    let ghost pv = permit@;
                    let ghost rv = record@;
                    self.flying.push(Attempt { record, permit });
                    started = started + 1;
                    proof {
                        let r1 = self@.ready;
                        let f1 = self@.in_flight;
                        let held = self@.permits;
                        assert(r1 =~= r.remove(0));
                        assert(rv == flying(r[0]));
                        assert(f1 =~= f.insert(f.len() as int, rv));
                        assert(held =~= p.push(pv));
                        lemma_parts_wf(r, d0, f);
                        lemma_remove_record(r, 0);
                        lemma_has_id_parts(r, d0, f, rv.id);
                        assert(has_id(r, rv.id));
                        lemma_insert_record(f, f.len() as int, rv);
                        lemma_parts_wf(r1, d0, f1);
                        assert(r1 =~= r0.subrange(started as int, r0.len() as int));
                        assert(f1 =~= f0 + r0.subrange(0, started as int).map_values(
                            |r: RecordView| flying(r),
                        ));
                        assert(pv == granted_permits(key, pool0, site, now, started as nat)[started
                            - 1]);
                        assert(held =~= p0 + granted_permits(key, pool0, site, now, started as nat));
                        assert forall|i: int| 0 <= i < held.len() implies (#[trigger] held[i]).key
                            == key by {
                            if i < p.len() {
                                assert(p[i].key == key);
                            }
                        }
                        assert(r.drop_first() =~= r1);
                    }
                },
            }
        }
        proof {
            lemma_leading_due(self@.ready, now);
            let n = dispatch_count(r0, pool0, site, now);
            assert(started == n);
            assert(dispatch_views(out@) =~= old(self)@.dispatches(now, pool0, site));
        }
        out
    }

    /// Applies the outcome of the attempt for a record in flight.
    ///
    /// The attempt's permit goes back to the destination. The record is
    /// resolved as the queue's configuration says: a delayed record enters
    /// the delayed set at the place its new due time gives it, a delivered or
    /// bounced one leaves the queue. The result carries the resolved record
    /// and the instruction for the spool. Without an attempt in flight for
    /// the identifier nothing changes.
    pub fn complete(
        &mut self,
        id: u64,
        outcome: AttemptOutcome,
        now: u64,
        sites: &mut SiteManager,
    ) -> (done: Result<Completion, CompleteError>)
        requires
            old(self).wf(),
            old(sites).wf(),
        ensures
            final(self).wf(),
            final(sites).wf(),
            final(self)@ == old(self)@.completed(id, outcome, now),
            done is Err <==> !has_id(old(self)@.in_flight, id),
            done is Err ==> *final(sites) == *old(sites),
            done matches Ok(c) ==> ({
                let permit = old(self)@.permits[index_of_id(old(self)@.in_flight, id)];
                let after = old(self)@.resolution(id, outcome, now);
                &&& c.record@ == after
                &&& c.instruction == instruction_for(after)
                &&& c.permit_released == old(sites).holds(permit)
                &&& permit.key == old(self)@.key
                &&& final(sites).same_elsewhere(old(sites), permit.key)
                &&& final(sites).has(permit.key) == old(sites).has(permit.key)
                &&& final(sites).config(permit.key) == old(sites).config(permit.key)
                &&& final(sites).pool(permit.key) == old(sites).released_pool(permit, outcome, now)
            }),
    {
        let ghost r = self@.ready;
        let ghost d = self@.delayed;
        let ghost f = self@.in_flight;
        let ghost p = self@.permits;
        let at: usize = match self.flying_position(id) {
            Some(i) => i,
            None => {
                return Err(CompleteError::NotInFlight);
            },
        };
        proof {
            lemma_parts_wf(r, d, f);
            let k = index_of_id(f, id);
            assert(f[at as int].id == id);
            if k < at {
                assert(f[k].id != f[at as int].id);
            } else if at < k {
                assert(f[at as int].id != f[k].id);
            }
        }
        let attempt = self.flying.remove(at);
        proof {
            let f1 = self@.in_flight;
            let held = self@.permits;
            assert(f1 =~= f.remove(at as int));
            assert(held =~= p.remove(at as int));
            lemma_remove_record(f, at as int);
            lemma_parts_wf(r, d, f1);
            assert forall|i: int| 0 <= i < held.len() implies (#[trigger] held[i]).key
                == self@.key by {
                let a = if i < at { i } else { i + 1 };
                assert(p[a].key == self@.key);
            }
            assert(p[at as int].key == self@.key);
            lemma_has_id_parts(r, d, f1, id);
            lemma_has_id_parts(r, d, f, id);
            assert(has_id(f, id));
        }
        let Attempt { record, permit } = attempt;
        let permit_released: bool = sites.release(permit, outcome, now);
        let next: MessageRecord = self.config.resolve(record, outcome, now);
        let instruction: SpoolInstruction = QueueConfig::instruction(&next);
        if next.state == RecordState::Delayed {
            let copy = next.duplicate();
            self.insert_delayed(next);
            Ok(Completion { record: copy, instruction, permit_released })
        } else {
            Ok(Completion { record: next, instruction, permit_released })
        }
    }

    /// One scheduling step: promotes the delayed records that are due, then
    /// starts as many attempts as the destination has room for.
    pub fn tick(&mut self, now: u64, sites: &mut SiteManager) -> (out: Vec<Dispatch>)
        requires
            old(self).wf(),
            old(sites).wf(),
        ensures
            final(self).wf(),
            final(sites).wf(),
            final(self)@ == old(self)@.promoted(now).dispatched(
                now,
                old(sites).pool(old(self)@.key),
                old(sites).config(old(self)@.key),
            ),
            dispatch_views(out@) == old(self)@.promoted(now).dispatches(
                now,
                old(sites).pool(old(self)@.key),
                old(sites).config(old(self)@.key),
            ),
            forall|i: int|
                0 <= i < out.len() ==> (#[trigger] old(self)@.promoted(now).ready[i]).due <= now,
            final(sites).same_elsewhere(old(sites), old(self)@.key),
            final(sites).config(old(self)@.key) == old(sites).config(old(self)@.key),
            final(sites).pool(old(self)@.key) == pool_after(
                old(sites).pool(old(self)@.key),
                old(sites).config(old(self)@.key),
                now,
                out.len() as nat,
            ),
            final(sites).in_flight(old(self)@.key) == old(sites).in_flight(old(self)@.key)
                + out.len(),
    {
        let _ = self.promote(now);
        self.dispatch(now, sites)
    }
}

} // verus!
