use vstd::prelude::*;

use crate::events::{clone_text, Event, ParticipantModel};
use crate::pinkpolitiek_api::PPEvent;
use crate::source::Source;

verus! {

/// One stored event. `region_id`, `reward`, `image_url` and `image_srcset` are edited
/// locally; the other fields follow the remote API.
#[derive(Clone, Debug)]
pub struct EventRow {
    pub id: u32,
    pub region_id: Option<u32>,
    pub title: String,
    pub description: Option<String>,
    pub reward: i32,
    pub source: Source,
    pub url: Option<String>,
    pub image_url: Option<String>,
    pub image_srcset: Option<String>,
    pub start_date: Option<String>,
    pub all_day: bool,
}

/// One user taking part in one event.
#[derive(Clone, Copy, Debug, PartialEq, Eq, Structural)]
pub struct Participant {
    pub event_id: u32,
    pub user_id: u32,
}

/// Why a write to the store did not happen.
#[derive(Clone, Copy, Debug, PartialEq, Eq, Structural)]
pub enum StoreError {
    /// The event does not exist.
    NotFound,
    /// An event with that id already exists.
    Conflict,
    /// The event's id cannot be stored: stored ids are unsigned.
    Rejected,
    /// The storage could not perform the write.
    WriteFailed,
}

/// A sync pass stopped at the event with this remote id.
#[derive(Clone, Copy, Debug, PartialEq, Eq, Structural)]
pub struct SyncError {
    pub event_id: i32,
}

/// The next move of a sync pass that writes its events one after another.
#[derive(Clone, Copy, Debug, PartialEq, Eq, Structural)]
pub enum SyncStep {
    /// Write the event at this position.
    Write(usize),
    /// Every event was written.
    Done,
    /// A write failed: the pass ends with this error.
    Failed(SyncError),
}

/// The move after the write of event `i` succeeded (`write_ok`) or failed.
pub open spec fn next_step(events: Seq<PPEvent>, i: int, write_ok: bool) -> SyncStep {
    if !write_ok {
        SyncStep::Failed(SyncError { event_id: events[i].id })
    } else if i + 1 < events.len() {
        SyncStep::Write((i + 1) as usize)
    } else {
        SyncStep::Done
    }
}

/// The first move of a sync pass over `events`.
pub fn sync_start(events: &Vec<PPEvent>) -> (r: SyncStep)
    ensures
        r == if events@.len() == 0 { SyncStep::Done } else { SyncStep::Write(0) },
{
    if events.len() == 0 {
        SyncStep::Done
    } else {
        SyncStep::Write(0)
    }
}

/// The move after writing event `i`: a failed write ends the pass naming the event;
/// otherwise the next event is written, or the pass is done.
pub fn sync_step(events: &Vec<PPEvent>, i: usize, write_ok: bool) -> (r: SyncStep)
    requires
        i < events@.len(),
    ensures
        r == next_step(events@, i as int, write_ok),
{
    if !write_ok {
        SyncStep::Failed(SyncError { event_id: events[i].id })
    } else if i < events.len() - 1 {
        SyncStep::Write(i + 1)
    } else {
        SyncStep::Done
    }
}

/// A pass from event `i` on, where `oks[j]` tells whether writing event `j` succeeds:
/// how many writes are made, and how the pass ends.
pub open spec fn run_from(events: Seq<PPEvent>, oks: Seq<bool>, i: int) -> (nat, SyncStep)
    decreases events.len() - i,
{
    if i < 0 || i >= events.len() {
        (0, SyncStep::Done)
    } else {
        match next_step(events, i, oks[i]) {
            SyncStep::Write(_) => {
                let rest = run_from(events, oks, i + 1);
                (rest.0 + 1, rest.1)
            },
            other => (1, other),
        }
    }
}

/// A pass driven by `sync_start` and `sync_step` whose write of event `k` is the first
/// to fail makes exactly the writes of events `0..=k`, never writes the events after
/// it, and ends naming event `k`.
pub proof fn lemma_sync_stops_at_failed_write(events: Seq<PPEvent>, oks: Seq<bool>, k: int)
    requires
        oks.len() == events.len(),
        0 <= k < events.len(),
        forall|i: int| 0 <= i < k ==> #[trigger] oks[i],
        !oks[k],
    ensures
        run_from(events, oks, 0) == (((k + 1) as nat), SyncStep::Failed(SyncError { event_id: events[k].id })),
{
    lemma_run_from(events, oks, 0, k);
}

proof fn lemma_run_from(events: Seq<PPEvent>, oks: Seq<bool>, i: int, k: int)
    requires
        oks.len() == events.len(),
        0 <= i <= k < events.len(),
        forall|j: int| 0 <= j < k ==> #[trigger] oks[j],
        !oks[k],
    ensures
        run_from(events, oks, i) == (((k - i + 1) as nat), SyncStep::Failed(SyncError { event_id: events[k].id })),
    decreases k - i,
{
    if i < k {
        assert(oks[i]);
        lemma_run_from(events, oks, i + 1, k);
    }
}

/// The outcome of taking part in an event: an unknown event is `NotFound` and is not
/// written; otherwise the write of the pair decides.
pub fn participate_outcome(event_exists: bool, written: bool) -> (r: Result<(), StoreError>)
    ensures
        !event_exists ==> r == Err::<(), StoreError>(StoreError::NotFound),
        event_exists && written ==> r == Ok::<(), StoreError>(()),
        event_exists && !written ==> r == Err::<(), StoreError>(StoreError::WriteFailed),
{
    if !event_exists {
        Err(StoreError::NotFound)
    } else if written {
        Ok(())
    } else {
        Err(StoreError::WriteFailed)
    }
}

/// The local events and participants tables.
pub struct EventStore {
    events: Vec<EventRow>,
    participants: Vec<Participant>,
}

/// The position of the last row with id `id`, or -1.
pub open spec fn index_of(rows: Seq<EventRow>, id: u32) -> int
    decreases rows.len(),
{
    if rows.len() == 0 {
        -1
    } else if rows.last().id == id {
        rows.len() - 1
    } else {
        index_of(rows.drop_last(), id)
    }
}

/// The stored row with id `id`, if any.
pub open spec fn lookup(rows: Seq<EventRow>, id: u32) -> Option<EventRow> {
    if index_of(rows, id) >= 0 {
        Some(rows[index_of(rows, id)])
    } else {
        None
    }
}

/// The row that syncing remote event `e` leaves, given the row stored before.
/// The remote API owns the title, description, url, start date and all-day flag;
/// the locally edited fields of an existing row are kept.
pub open spec fn synced_row(existing: Option<EventRow>, e: PPEvent) -> EventRow {
    match existing {
        Some(old) => EventRow {
            id: old.id,
            region_id: old.region_id,
            title: e.title,
            description: Some(e.description),
            reward: old.reward,
            source: Source::External,
            url: Some(e.url),
            image_url: old.image_url,
            image_srcset: old.image_srcset,
            start_date: Some(e.start_date),
            all_day: e.all_day,
        },
        None => EventRow {
            id: e.id as u32,
            region_id: None,
            title: e.title,
            description: Some(e.description),
            reward: 0,
            source: Source::External,
            url: Some(e.url),
            image_url: None,
            image_srcset: None,
            start_date: Some(e.start_date),
            all_day: e.all_day,
        },
    }
}

/// The rows after syncing `e`: its row is updated in place, or appended when new.
pub open spec fn upserted(rows: Seq<EventRow>, e: PPEvent) -> Seq<EventRow> {
    let j = index_of(rows, e.id as u32);
    if j >= 0 {
        rows.update(j, synced_row(Some(rows[j]), e))
    } else {
        rows.push(synced_row(None, e))
    }
}

/// The rows after syncing each of `events` in turn.
pub open spec fn upserted_all(rows: Seq<EventRow>, events: Seq<PPEvent>) -> Seq<EventRow>
    decreases events.len(),
{
    if events.len() == 0 {
        rows
    } else {
        upserted(upserted_all(rows, events.drop_last()), events.last())
    }
}

/// How a sync pass of `events` over rows `before` may end: stored whole when every id
/// can be stored, or stopped at the first event whose id cannot, naming it, with the
/// events before it stored.
pub open spec fn sync_outcome(
    before: Seq<EventRow>,
    after: Seq<EventRow>,
    events: Seq<PPEvent>,
    r: Result<(), SyncError>,
) -> bool {
    match r {
        Ok(_) => (forall|i: int| 0 <= i < events.len() ==> (#[trigger] events[i]).id >= 0)
            && after == upserted_all(before, events),
        Err(err) => exists|k: int|
            0 <= k < events.len() && (#[trigger] events[k]).id < 0
            && (forall|i: int| 0 <= i < k ==> (#[trigger] events[i]).id >= 0)
            && err.event_id == events[k].id
            && after == upserted_all(before, events.take(k)),
    }
}

/// No two rows share an id.
pub open spec fn ids_unique(rows: Seq<EventRow>) -> bool {
    forall|a: int, b: int| 0 <= a < b < rows.len() ==> (#[trigger] rows[a]).id != (#[trigger] rows[b]).id
}

/// The participants after `p` takes part: unchanged when the pair is already there.
pub open spec fn joined(ps: Seq<Participant>, p: Participant) -> Seq<Participant> {
    if ps.contains(p) {
        ps
    } else {
        ps.push(p)
    }
}

/// The participants without pair `p`.
pub open spec fn without(ps: Seq<Participant>, p: Participant) -> Seq<Participant>
    decreases ps.len(),
{
    if ps.len() == 0 {
        ps
    } else if ps.last() == p {
        without(ps.drop_last(), p)
    } else {
        without(ps.drop_last(), p).push(ps.last())
    }
}

/// How many rows hold pair `p`.
pub open spec fn copies(ps: Seq<Participant>, p: Participant) -> nat
    decreases ps.len(),
{
    if ps.len() == 0 {
        0
    } else {
        copies(ps.drop_last(), p) + if ps.last() == p { 1nat } else { 0nat }
    }
}

/// The users taking part in event `event_id`, in row order.
pub open spec fn participants_for(ps: Seq<Participant>, event_id: u32) -> Seq<ParticipantModel>
    decreases ps.len(),
{
    if ps.len() == 0 {
        Seq::empty()
    } else if ps.last().event_id == event_id {
        participants_for(ps.drop_last(), event_id).push(ParticipantModel { user_id: ps.last().user_id })
    } else {
        participants_for(ps.drop_last(), event_id)
    }
}

/// `e` shows stored row `row` with the participants of `ps`.
pub open spec fn shown(e: Event, row: EventRow, ps: Seq<Participant>) -> bool {
    &&& e.id == row.id
    &&& e.region_id == row.region_id
    &&& e.title == row.title
    &&& e.description == row.description
    &&& e.reward == row.reward
    &&& e.source == row.source
    &&& e.url == row.url
    &&& e.image_url == row.image_url
    &&& e.participants@ == participants_for(ps, row.id)
}

proof fn lemma_index_of(rows: Seq<EventRow>, id: u32)
    ensures
        -1 <= index_of(rows, id) < rows.len(),
        index_of(rows, id) >= 0 ==> rows[index_of(rows, id)].id == id,
        forall|k: int| index_of(rows, id) < k < rows.len() ==> (#[trigger] rows[k]).id != id,
    decreases rows.len(),
{
    if rows.len() > 0 {
        lemma_index_of(rows.drop_last(), id);
        assert forall|k: int| index_of(rows, id) < k < rows.len() implies (#[trigger] rows[k]).id != id by {
            if k < rows.len() - 1 {
                assert(rows[k] == rows.drop_last()[k]);
            }
        }
    }
}

proof fn lemma_index_of_same_ids(a: Seq<EventRow>, b: Seq<EventRow>, id: u32)
    requires
        a.len() == b.len(),
        forall|k: int| 0 <= k < a.len() ==> (#[trigger] a[k]).id == b[k].id,
    ensures
        index_of(a, id) == index_of(b, id),
    decreases a.len(),
{
    if a.len() > 0 {
        lemma_index_of_same_ids(a.drop_last(), b.drop_last(), id);
    }
}

/// Syncing `e` changes the row with `e`'s id and no other.
pub proof fn lemma_lookup_upserted(rows: Seq<EventRow>, e: PPEvent, id: u32)
    ensures
        lookup(upserted(rows, e), id) == if id == e.id as u32 {
            Some(synced_row(lookup(rows, id), e))
        } else {
            lookup(rows, id)
        },
{
    let eid = e.id as u32;
    let j = index_of(rows, eid);
    lemma_index_of(rows, eid);
    lemma_index_of(rows, id);
    let next = upserted(rows, e);
    if j >= 0 {
        lemma_index_of_same_ids(next, rows, id);
    } else {
        assert(next.drop_last() =~= rows);
    }
}


proof fn lemma_push_contains(ps: Seq<Participant>, x: Participant)
    ensures
        forall|q: Participant| ps.push(x).contains(q) <==> (ps.contains(q) || q == x),
{
    assert forall|q: Participant| ps.push(x).contains(q) <==> (ps.contains(q) || q == x) by {
        if ps.push(x).contains(q) {
            let k = choose|k: int| 0 <= k < ps.push(x).len() && ps.push(x)[k] == q;
            if k < ps.len() {
                assert(ps[k] == q);
            }
        }
        if ps.contains(q) {
            let k = choose|k: int| 0 <= k < ps.len() && ps[k] == q;
            assert(ps.push(x)[k] == q);
        }
        if q == x {
            assert(ps.push(x)[ps.len() as int] == q);
        }
    }
}

proof fn lemma_without_contents(ps: Seq<Participant>, p: Participant)
    ensures
        forall|q: Participant| without(ps, p).contains(q) <==> (ps.contains(q) && q != p),
    decreases ps.len(),
{
    if ps.len() > 0 {
        let prefix = ps.drop_last();
        lemma_without_contents(prefix, p);
        assert(ps =~= prefix.push(ps.last()));
        lemma_push_contains(prefix, ps.last());
        if ps.last() != p {
            lemma_push_contains(without(prefix, p), ps.last());
            assert(without(ps, p) == without(prefix, p).push(ps.last()));
        } else {
            assert(without(ps, p) == without(prefix, p));
        }
        assert forall|q: Participant| without(ps, p).contains(q) <==> (ps.contains(q) && q != p) by {
            assert(prefix.push(ps.last()).contains(q) <==> (prefix.contains(q) || q == ps.last()));
        }
    } else {
        assert forall|q: Participant| without(ps, p).contains(q) <==> (ps.contains(q) && q != p) by {
            assert(!ps.contains(q));
            assert(without(ps, p) == ps);
        }
    }
}

proof fn lemma_without_no_duplicates(ps: Seq<Participant>, p: Participant)
    requires
        ps.no_duplicates(),
    ensures
        without(ps, p).no_duplicates(),
    decreases ps.len(),
{
    if ps.len() > 0 {
        let prefix = ps.drop_last();
        assert(prefix.no_duplicates());
        lemma_without_no_duplicates(prefix, p);
        lemma_without_contents(prefix, p);
        if ps.last() != p {
            assert(!prefix.contains(ps.last()));
            let w = without(prefix, p);
            assert(!w.contains(ps.last()));
            let wp = w.push(ps.last());
            assert forall|a: int, b: int| 0 <= a < wp.len() && 0 <= b < wp.len() && a != b implies wp[a] != wp[b] by {
                if a < w.len() && b < w.len() {
                    assert(w[a] != w[b]);
                } else if a < w.len() {
                    assert(w.contains(w[a]));
                } else {
                    assert(w.contains(w[b]));
                }
            }
        }
    }
}

proof fn lemma_participate_keeps_unique(ps: Seq<Participant>, p: Participant)
    requires
        ps.no_duplicates(),
    ensures
        joined(ps, p).no_duplicates(),
{
    if !ps.contains(p) {
        let wp = ps.push(p);
        assert forall|a: int, b: int| 0 <= a < wp.len() && 0 <= b < wp.len() && a != b implies wp[a] != wp[b] by {
            if a < ps.len() && b < ps.len() {
                assert(ps[a] != ps[b]);
            } else if a < ps.len() {
                assert(ps.contains(ps[a]));
            } else {
                assert(ps.contains(ps[b]));
            }
        }
    }
}

proof fn lemma_upserted_all_append(rows: Seq<EventRow>, a: Seq<PPEvent>, b: Seq<PPEvent>)
    ensures
        upserted_all(rows, a + b) == upserted_all(upserted_all(rows, a), b),
    decreases b.len(),
{
    if b.len() == 0 {
        assert(a + b =~= a);
    } else {
        lemma_upserted_all_append(rows, a, b.drop_last());
        assert((a + b).drop_last() =~= a + b.drop_last());
        assert((a + b).last() == b.last());
    }
}

proof fn lemma_lookup_untouched(rows: Seq<EventRow>, events: Seq<PPEvent>, id: u32)
    requires
        forall|i: int| 0 <= i < events.len() ==> (#[trigger] events[i]).id as u32 != id,
    ensures
        lookup(upserted_all(rows, events), id) == lookup(rows, id),
    decreases events.len(),
{
    if events.len() > 0 {
        lemma_lookup_untouched(rows, events.drop_last(), id);
        lemma_lookup_upserted(upserted_all(rows, events.drop_last()), events.last(), id);
    }
}

/// Syncing never changes the locally edited fields of an event that is already stored:
/// after any sequence of remote events, its region, reward and images are as before.
pub proof fn lemma_local_fields_kept(rows: Seq<EventRow>, events: Seq<PPEvent>, id: u32)
    requires
        lookup(rows, id) is Some,
    ensures
        lookup(upserted_all(rows, events), id) is Some,
        lookup(upserted_all(rows, events), id).unwrap().region_id == lookup(rows, id).unwrap().region_id,
        lookup(upserted_all(rows, events), id).unwrap().reward == lookup(rows, id).unwrap().reward,
        lookup(upserted_all(rows, events), id).unwrap().image_url == lookup(rows, id).unwrap().image_url,
        lookup(upserted_all(rows, events), id).unwrap().image_srcset == lookup(rows, id).unwrap().image_srcset,
    decreases events.len(),
{
    if events.len() > 0 {
        lemma_local_fields_kept(rows, events.drop_last(), id);
        lemma_lookup_upserted(upserted_all(rows, events.drop_last()), events.last(), id);
    }
}

/// Taking part twice leaves exactly one row for the pair.
pub proof fn lemma_participate_twice(ps: Seq<Participant>, p: Participant)
    requires
        ps.no_duplicates(),
    ensures
        copies(joined(joined(ps, p), p), p) == 1,
{
    lemma_participate_keeps_unique(ps, p);
    let once = joined(ps, p);
    assert(once.contains(p)) by {
        if !ps.contains(p) {
            assert(once[ps.len() as int] == p);
        }
    }
    lemma_copies_unique(once, p);
}

proof fn lemma_copies_unique(ps: Seq<Participant>, p: Participant)
    requires
        ps.no_duplicates(),
        ps.contains(p),
    ensures
        copies(ps, p) == 1,
    decreases ps.len(),
{
    let prefix = ps.drop_last();
    assert(prefix.no_duplicates());
    if ps.last() == p {
        assert(!prefix.contains(p)) by {
            if prefix.contains(p) {
                let k = choose|k: int| 0 <= k < prefix.len() && prefix[k] == p;
                assert(ps[k] == ps[ps.len() - 1]);
            }
        }
        lemma_copies_absent(prefix, p);
    } else {
        let k = choose|k: int| 0 <= k < ps.len() && ps[k] == p;
        assert(prefix[k] == p);
        lemma_copies_unique(prefix, p);
    }
}

proof fn lemma_copies_absent(ps: Seq<Participant>, p: Participant)
    requires
        !ps.contains(p),
    ensures
        copies(ps, p) == 0,
    decreases ps.len(),
{
    if ps.len() > 0 {
        let prefix = ps.drop_last();
        assert(!prefix.contains(p)) by {
            if prefix.contains(p) {
                let k = choose|k: int| 0 <= k < prefix.len() && prefix[k] == p;
                assert(ps[k] == p);
            }
        }
        assert(ps[ps.len() - 1] != p);
        lemma_copies_absent(prefix, p);
    }
}

/// Removing a pair that is not stored changes nothing.
pub proof fn lemma_stop_absent(ps: Seq<Participant>, p: Participant)
    requires
        !ps.contains(p),
    ensures
        without(ps, p) == ps,
    decreases ps.len(),
{
    if ps.len() > 0 {
        let prefix = ps.drop_last();
        assert(!prefix.contains(p)) by {
            if prefix.contains(p) {
                let k = choose|k: int| 0 <= k < prefix.len() && prefix[k] == p;
                assert(ps[k] == p);
            }
        }
        assert(ps[ps.len() - 1] != p);
        lemma_stop_absent(prefix, p);
        assert(prefix.push(ps.last()) =~= ps);
    }
}

/// A sync pass that ends in an error stops at the first event that cannot be stored:
/// the error names that event, every event before it is stored with its remote fields,
/// and the row of any other id is as it was before the pass.
pub proof fn lemma_partial_sync(
    before: Seq<EventRow>,
    after: Seq<EventRow>,
    events: Seq<PPEvent>,
    err: SyncError,
    k: int,
)
    requires
        0 <= k < events.len(),
        events[k].id < 0,
        forall|i: int| 0 <= i < k ==> (#[trigger] events[i]).id >= 0,
        sync_outcome(before, after, events, Err(err)),
    ensures
        err.event_id == events[k].id,
        after == upserted_all(before, events.take(k)),
        forall|i: int| 0 <= i < k && (forall|j: int| i < j < k ==> (#[trigger] events[j]).id != events[i].id)
            ==> lookup(after, (#[trigger] events[i]).id as u32)
                == Some(synced_row(lookup(upserted_all(before, events.take(i)), events[i].id as u32), events[i])),
        forall|id: u32| (forall|i: int| 0 <= i < k ==> (#[trigger] events[i]).id as u32 != id)
            ==> lookup(after, id) == lookup(before, id),
{
    let m = choose|m: int|
        0 <= m < events.len() && (#[trigger] events[m]).id < 0
        && (forall|i: int| 0 <= i < m ==> (#[trigger] events[i]).id >= 0)
        && err.event_id == events[m].id
        && after == upserted_all(before, events.take(m));
    if m < k {
        assert(events[m].id >= 0);
    }
    if k < m {
        assert(events[k].id >= 0);
    }
    assert(m == k);
    assert forall|id: u32| (forall|i: int| 0 <= i < k ==> (#[trigger] events[i]).id as u32 != id)
        implies lookup(after, id) == lookup(before, id) by {
        lemma_lookup_untouched(before, events.take(k), id);
    }
    assert forall|i: int| 0 <= i < k && (forall|j: int| i < j < k ==> (#[trigger] events[j]).id != events[i].id)
        implies lookup(after, (#[trigger] events[i]).id as u32)
            == Some(synced_row(lookup(upserted_all(before, events.take(i)), events[i].id as u32), events[i])) by {
        let id = events[i].id as u32;
        let head = events.take(i + 1);
        let tail = events.subrange(i + 1, k);
        assert(head + tail =~= events.take(k));
        lemma_upserted_all_append(before, head, tail);
        assert(head.drop_last() =~= events.take(i));
        lemma_lookup_upserted(upserted_all(before, events.take(i)), events[i], id);
        assert forall|j: int| 0 <= j < tail.len() implies (#[trigger] tail[j]).id as u32 != id by {
            assert(tail[j] == events[i + 1 + j]);
            assert(events[i + 1 + j].id != events[i].id);
            assert(events[i + 1 + j].id >= 0);
        }
        lemma_lookup_untouched(upserted_all(before, head), tail, id);
    }
}

proof fn lemma_push_keeps_ids_unique(rows: Seq<EventRow>, row: EventRow)
    requires
        ids_unique(rows),
        index_of(rows, row.id) == -1,
    ensures
        ids_unique(rows.push(row)),
{
    lemma_index_of(rows, row.id);
    let next = rows.push(row);
    assert forall|a: int, b: int| 0 <= a < b < next.len() implies (#[trigger] next[a]).id != (#[trigger] next[b]).id by {
        if b < rows.len() {
            assert(next[a] == rows[a] && next[b] == rows[b]);
        } else {
            assert(next[a] == rows[a]);
        }
    }
}

fn copy_row(row: &EventRow) -> (r: EventRow)
    ensures
        r == *row,
{
    EventRow {
        id: row.id,
        region_id: row.region_id,
        title: row.title.clone(),
        description: clone_text(&row.description),
        reward: row.reward,
        source: row.source,
        url: clone_text(&row.url),
        image_url: clone_text(&row.image_url),
        image_srcset: clone_text(&row.image_srcset),
        start_date: clone_text(&row.start_date),
        all_day: row.all_day,
    }
}

fn position(rows: &Vec<EventRow>, id: u32) -> (r: Option<usize>)
    ensures
        match r {
            None => index_of(rows@, id) == -1,
            Some(j) => j as int == index_of(rows@, id),
        },
{
    proof {
        lemma_index_of(rows@, id);
    }
    let mut found: Option<usize> = None;
    let mut k: usize = 0;
    while k < rows.len()
        invariant
            k <= rows@.len(),
            match found {
                None => forall|m: int| 0 <= m < k ==> (#[trigger] rows@[m]).id != id,
                Some(j) => j < k && rows@[j as int].id == id && forall|m: int| j < m < k ==> (#[trigger] rows@[m]).id != id,
            },
        decreases rows@.len() - k,
    {
        if rows[k].id == id {
            found = Some(k);
        }
        k += 1;
    }
    found
}

impl EventStore {
    /// The stored events, in storage order.
    pub closed spec fn rows(&self) -> Seq<EventRow> {
        self.events@
    }

    /// The stored participation rows, in storage order.
    pub closed spec fn pairs(&self) -> Seq<Participant> {
        self.participants@
    }

    /// No event id and no participation pair is stored twice.
    pub open spec fn wf(&self) -> bool {
        &&& ids_unique(self.rows())
        &&& self.pairs().no_duplicates()
    }

    /// An empty store.
    pub fn new() -> (r: EventStore)
        ensures
            r.rows() == Seq::<EventRow>::empty(),
            r.pairs() == Seq::<Participant>::empty(),
            r.wf(),
    {
        EventStore { events: Vec::new(), participants: Vec::new() }
    }

    /// The stored events, in storage order.
    pub fn events(&self) -> (r: &Vec<EventRow>)
        ensures
            r@ == self.rows(),
    {
        &self.events
    }

    /// The stored participation rows, in storage order.
    pub fn participants(&self) -> (r: &Vec<Participant>)
        ensures
            r@ == self.pairs(),
    {
        &self.participants
    }

    /// The stored event with id `id`, if any.
    pub fn event(&self, id: u32) -> (r: Option<EventRow>)
        ensures
            r == lookup(self.rows(), id),
    {
        proof {
            lemma_index_of(self.events@, id);
        }
        match position(&self.events, id) {
            Some(j) => Some(copy_row(&self.events[j])),
            None => None,
        }
    }

    /// Adds an event created locally; an event with the same id must not exist yet.
    pub fn insert_local(&mut self, row: EventRow) -> (r: Result<(), StoreError>)
        requires
            old(self).wf(),
        ensures
            final(self).wf(),
            final(self).pairs() == old(self).pairs(),
            lookup(old(self).rows(), row.id) is Some ==> r == Err::<(), StoreError>(StoreError::Conflict)
                && final(self).rows() == old(self).rows(),
            lookup(old(self).rows(), row.id) is None ==> r == Ok::<(), StoreError>(())
                && final(self).rows() == old(self).rows().push(row),
    {
        proof {
            lemma_index_of(self.events@, row.id);
        }
        match position(&self.events, row.id) {
            Some(_) => Err(StoreError::Conflict),
            None => {
                proof {
                    lemma_push_keeps_ids_unique(self.events@, row);
                }
                self.events.push(row);
                Ok(())
            },
        }
    }

    /// Inserts or updates the row of remote event `event`, keyed by its id. An existing
    /// row keeps its locally edited fields; a negative id is not stored.
    pub fn upsert_remote(&mut self, event: &PPEvent) -> (r: Result<(), StoreError>)
        requires
            old(self).wf(),
        ensures
            final(self).wf(),
            final(self).pairs() == old(self).pairs(),
            event.id < 0 ==> r == Err::<(), StoreError>(StoreError::Rejected)
                && final(self).rows() == old(self).rows(),
            event.id >= 0 ==> r == Ok::<(), StoreError>(())
                && final(self).rows() == upserted(old(self).rows(), *event),
    {
        if event.id < 0 {
            return Err(StoreError::Rejected);
        }
        let id = event.id as u32;
        proof {
            lemma_index_of(self.events@, id);
        }
        match position(&self.events, id) {
            Some(j) => {
                let row = {
                    let old_row = &self.events[j];
                    EventRow {
                        id: old_row.id,
                        region_id: old_row.region_id,
                        title: event.title.clone(),
                        description: Some(event.description.clone()),
                        reward: old_row.reward,
                        source: Source::External,
                        url: Some(event.url.clone()),
                        image_url: clone_text(&old_row.image_url),
                        image_srcset: clone_text(&old_row.image_srcset),
                        start_date: Some(event.start_date.clone()),
                        all_day: event.all_day,
                    }
                };
                let ghost before = self.events@;
                self.events[j] = row;
                assert forall|a: int, b: int| 0 <= a < b < self.events@.len() implies (#[trigger] self.events@[a]).id
                    != (#[trigger] self.events@[b]).id by {
                    assert(self.events@[a].id == before[a].id);
                    assert(self.events@[b].id == before[b].id);
                }
            },
            None => {
                proof {
                    lemma_push_keeps_ids_unique(self.events@, synced_row(None, *event));
                }
                self.events.push(
                    EventRow {
                        id,
                        region_id: None,
                        title: event.title.clone(),
                        description: Some(event.description.clone()),
                        reward: 0,
                        source: Source::External,
                        url: Some(event.url.clone()),
                        image_url: None,
                        image_srcset: None,
                        start_date: Some(event.start_date.clone()),
                        all_day: event.all_day,
                    },
                );
            },
        }
        Ok(())
    }

    /// Syncs `events` one after another. The first event that cannot be stored ends the
    /// pass with its id; the events before it stay stored.
    pub fn store_to_db(&mut self, events: &Vec<PPEvent>) -> (r: Result<(), SyncError>)
        requires
            old(self).wf(),
        ensures
            final(self).wf(),
            final(self).pairs() == old(self).pairs(),
            sync_outcome(old(self).rows(), final(self).rows(), events@, r),
    {
        let mut i: usize = 0;
        while i < events.len()
            invariant
                i <= events@.len(),
                self.wf(),
                self.pairs() == old(self).pairs(),
                forall|j: int| 0 <= j < i ==> (#[trigger] events@[j]).id >= 0,
                self.rows() == upserted_all(old(self).rows(), events@.take(i as int)),
            decreases events@.len() - i,
        {
            assert(events@.take(i + 1).drop_last() =~= events@.take(i as int));
            match self.upsert_remote(&events[i]) {
                Err(_) => {
                    return Err(SyncError { event_id: events[i].id });
                },
                Ok(()) => {},
            }
            i += 1;
        }
        assert(events@.take(events@.len() as int) =~= events@);
        Ok(())
    }

    /// Records that user `user_id` takes part in event `event_id`. The event must exist;
    /// taking part twice changes nothing.
    pub fn participate(&mut self, event_id: u32, user_id: u32) -> (r: Result<(), StoreError>)
        requires
            old(self).wf(),
        ensures
            final(self).wf(),
            final(self).rows() == old(self).rows(),
            lookup(old(self).rows(), event_id) is None ==> r == Err::<(), StoreError>(StoreError::NotFound)
                && final(self).pairs() == old(self).pairs(),
            lookup(old(self).rows(), event_id) is Some ==> r == Ok::<(), StoreError>(())
                && final(self).pairs() == joined(old(self).pairs(), Participant { event_id, user_id }),
    {
        proof {
            lemma_index_of(self.events@, event_id);
        }
        if position(&self.events, event_id).is_none() {
            return Err(StoreError::NotFound);
        }
        let pair = Participant { event_id, user_id };
        let mut k: usize = 0;
        while k < self.participants.len()
            invariant
                k <= self.participants@.len(),
                self.events@ == old(self).events@,
                self.participants@ == old(self).participants@,
                self.wf(),
                lookup(old(self).rows(), event_id) is Some,
                pair == (Participant { event_id, user_id }),
                forall|m: int| 0 <= m < k ==> self.participants@[m] != pair,
            decreases self.participants@.len() - k,
        {
            if self.participants[k] == pair {
                assert(self.participants@.contains(pair));
                return Ok(());
            }
            k += 1;
        }
        assert(!self.participants@.contains(pair));
        proof {
            lemma_participate_keeps_unique(self.participants@, pair);
        }
        self.participants.push(pair);
        Ok(())
    }

    /// Removes user `user_id` from event `event_id`. Removing a pair that is not stored
    /// is no error and changes nothing.
    pub fn stop_participating(&mut self, event_id: u32, user_id: u32)
        requires
            old(self).wf(),
        ensures
            final(self).wf(),
            final(self).rows() == old(self).rows(),
            final(self).pairs() == without(old(self).pairs(), Participant { event_id, user_id }),
    {
        let pair = Participant { event_id, user_id };
        let mut kept: Vec<Participant> = Vec::new();
        let mut k: usize = 0;
        while k < self.participants.len()
            invariant
                k <= self.participants@.len(),
                kept@ == without(self.participants@.take(k as int), pair),
            decreases self.participants@.len() - k,
        {
            assert(self.participants@.take(k + 1).drop_last() =~= self.participants@.take(k as int));
            let q = self.participants[k];
            if q != pair {
                kept.push(q);
            }
            k += 1;
        }
        assert(self.participants@.take(k as int) =~= self.participants@);
        proof {
            lemma_without_no_duplicates(self.participants@, pair);
        }
        self.participants = kept;
    }

    /// Every stored event with the users taking part in it, one view per stored row.
    pub fn list_cached(&self) -> (r: Vec<Event>)
        requires
            self.wf(),
        ensures
            r@.len() == self.rows().len(),
            forall|a: int, b: int| 0 <= a < b < r@.len() ==> (#[trigger] r@[a]).id != (#[trigger] r@[b]).id,
            forall|i: int| 0 <= i < r@.len() ==> shown(#[trigger] r@[i], self.rows()[i], self.pairs()),
    {
        let mut views: Vec<Event> = Vec::new();
        let mut i: usize = 0;
        while i < self.events.len()
            invariant
                i <= self.events@.len(),
                ids_unique(self.events@),
                views@.len() == i,
                forall|e: int| 0 <= e < i ==> shown(#[trigger] views@[e], self.events@[e], self.participants@),
            decreases self.events@.len() - i,
        {
            let row = &self.events[i];
            let mut users: Vec<ParticipantModel> = Vec::new();
            let mut k: usize = 0;
            while k < self.participants.len()
                invariant
                    k <= self.participants@.len(),
                    i < self.events@.len(),
                    *row == self.events@[i as int],
                    users@ == participants_for(self.participants@.take(k as int), row.id),
                decreases self.participants@.len() - k,
            {
                assert(self.participants@.take(k + 1).drop_last() =~= self.participants@.take(k as int));
                let q = self.participants[k];
                if q.event_id == row.id {
                    users.push(ParticipantModel { user_id: q.user_id });
                }
                k += 1;
            }
            assert(self.participants@.take(k as int) =~= self.participants@);
            views.push(
                Event {
                    id: row.id,
                    region_id: row.region_id,
                    title: row.title.clone(),
                    description: clone_text(&row.description),
                    reward: row.reward,
                    source: row.source,
                    url: clone_text(&row.url),
                    image_url: clone_text(&row.image_url),
                    participants: users,
                },
            );
            i += 1;
        }
        assert forall|a: int, b: int| 0 <= a < b < views@.len() implies (#[trigger] views@[a]).id
            != (#[trigger] views@[b]).id by {
            assert(views@[a].id == self.events@[a].id && views@[b].id == self.events@[b].id);
        }
        views
    }
}

} // verus!
