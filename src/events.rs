use vstd::prelude::*;

use crate::source::{source_text, Source};

verus! {

/// One user taking part in an event.
#[derive(Clone, Copy, Debug, PartialEq, Eq, Structural)]
pub struct ParticipantModel {
    pub user_id: u32,
}

/// An event as it is shown to clients: the stored event with its participants.
#[derive(Clone, Debug)]
pub struct Event {
    pub id: u32,
    pub region_id: Option<u32>,
    pub title: String,
    pub description: Option<String>,
    pub reward: i32,
    pub source: Source,
    pub url: Option<String>,
    pub image_url: Option<String>,
    pub participants: Vec<ParticipantModel>,
}

/// One row of the events table left-joined with the participants table:
/// `user_id` is `None` for an event that nobody takes part in.
#[derive(Clone, Debug)]
pub struct DatabaseResult {
    pub id: u32,
    pub region_id: Option<u32>,
    pub title: String,
    pub description: Option<String>,
    pub reward: i32,
    pub source: String,
    pub url: Option<String>,
    pub image_url: Option<String>,
    pub image_srcset: Option<String>,
    pub user_id: Option<u32>,
}

/// Some row of `rows` belongs to event `id`.
pub open spec fn seen(rows: Seq<DatabaseResult>, id: u32) -> bool {
    exists|k: int| 0 <= k < rows.len() && (#[trigger] rows[k]).id == id
}

/// The positions of the first row of each event, in the order the events first appear.
pub open spec fn first_rows(rows: Seq<DatabaseResult>) -> Seq<int>
    decreases rows.len(),
{
    if rows.len() == 0 {
        Seq::empty()
    } else {
        let prev = first_rows(rows.drop_last());
        if seen(rows.drop_last(), rows.last().id) {
            prev
        } else {
            prev.push(rows.len() - 1)
        }
    }
}

/// The users that the rows give event `id`, each once, in the order they first appear.
pub open spec fn participants_of(rows: Seq<DatabaseResult>, id: u32) -> Seq<ParticipantModel>
    decreases rows.len(),
{
    if rows.len() == 0 {
        Seq::empty()
    } else {
        let prev = participants_of(rows.drop_last(), id);
        let last = rows.last();
        if last.id == id && last.user_id.is_some() && !prev.contains(ParticipantModel { user_id: last.user_id.unwrap() }) {
            prev.push(ParticipantModel { user_id: last.user_id.unwrap() })
        } else {
            prev
        }
    }
}

/// The first row of each event names one of the two sources.
pub open spec fn sources_valid(rows: Seq<DatabaseResult>) -> bool {
    forall|j: int| 0 <= j < first_rows(rows).len() ==> rows[#[trigger] first_rows(rows)[j]].source@ == "local"@
        || rows[first_rows(rows)[j]].source@ == "external"@
}

/// Some row of `rows` joins user `user_id` to event `id`.
pub open spec fn joins(rows: Seq<DatabaseResult>, id: u32, user_id: u32) -> bool {
    exists|k: int| 0 <= k < rows.len() && (#[trigger] rows[k]).id == id && rows[k].user_id == Some(user_id)
}

/// The participants of an event are a set: each user once, and exactly the users that
/// some row joins to the event.
pub proof fn lemma_participants_of(rows: Seq<DatabaseResult>, id: u32)
    ensures
        participants_of(rows, id).no_duplicates(),
        forall|u: u32| participants_of(rows, id).contains(ParticipantModel { user_id: u }) <==> joins(rows, id, u),
    decreases rows.len(),
{
    if rows.len() > 0 {
        let prefix = rows.drop_last();
        lemma_participants_of(prefix, id);
        let prev = participants_of(prefix, id);
        let last = rows.last();
        assert forall|u: u32| joins(rows, id, u) <==> (joins(prefix, id, u) || (last.id == id && last.user_id == Some(u))) by {
            if joins(rows, id, u) {
                let k = choose|k: int| 0 <= k < rows.len() && (#[trigger] rows[k]).id == id && rows[k].user_id == Some(u);
                if k < rows.len() - 1 {
                    assert(prefix[k] == rows[k]);
                }
            }
            if joins(prefix, id, u) {
                let k = choose|k: int| 0 <= k < prefix.len() && (#[trigger] prefix[k]).id == id && prefix[k].user_id == Some(u);
                assert(rows[k] == prefix[k]);
            }
            if last.id == id && last.user_id == Some(u) {
                assert(rows[rows.len() - 1] == last);
            }
        }
        if last.id == id && last.user_id.is_some() && !prev.contains(ParticipantModel { user_id: last.user_id.unwrap() }) {
            let p = ParticipantModel { user_id: last.user_id.unwrap() };
            let next = prev.push(p);
            assert forall|a: int, b: int| 0 <= a < next.len() && 0 <= b < next.len() && a != b implies next[a] != next[b] by {
                if a < prev.len() && b < prev.len() {
                    assert(prev[a] != prev[b]);
                } else if a < prev.len() {
                    assert(prev.contains(prev[a]));
                } else {
                    assert(prev.contains(prev[b]));
                }
            }
            assert forall|u: u32| next.contains(ParticipantModel { user_id: u }) <==> (prev.contains(ParticipantModel { user_id: u }) || u == p.user_id) by {
                let q = ParticipantModel { user_id: u };
                if next.contains(q) {
                    let k = choose|k: int| 0 <= k < next.len() && next[k] == q;
                    if k < prev.len() {
                        assert(prev[k] == q);
                    }
                }
                if prev.contains(q) {
                    let k = choose|k: int| 0 <= k < prev.len() && prev[k] == q;
                    assert(next[k] == q);
                }
                if u == p.user_id {
                    assert(next[prev.len() as int] == q);
                }
            }
        }
    }
}

/// `e` is the view of the event whose first row is `row`, with the participants of all `rows`.
pub open spec fn assembled(e: Event, row: DatabaseResult, rows: Seq<DatabaseResult>) -> bool {
    &&& e.id == row.id
    &&& e.region_id == row.region_id
    &&& e.title == row.title
    &&& e.description == row.description
    &&& e.reward == row.reward
    &&& source_text(e.source) == row.source@
    &&& e.url == row.url
    &&& e.image_url == row.image_url
    &&& e.participants@ == participants_of(rows, row.id)
}

/// One view per event: the first rows, from which `convert_results_to_events` builds its
/// views, point into `rows`, belong to distinct events, and cover every event of `rows`.
pub proof fn lemma_first_rows(rows: Seq<DatabaseResult>)
    ensures
        forall|j: int| 0 <= j < first_rows(rows).len() ==> 0 <= #[trigger] first_rows(rows)[j] < rows.len(),
        forall|j: int| 0 <= j < first_rows(rows).len() ==> !seen(rows.take(#[trigger] first_rows(rows)[j]), rows[first_rows(rows)[j]].id),
        forall|j1: int, j2: int|
            0 <= j1 < j2 < first_rows(rows).len() ==> rows[#[trigger] first_rows(rows)[j1]].id != rows[#[trigger] first_rows(rows)[j2]].id,
        forall|id: u32| seen(rows, id) <==> exists|j: int| 0 <= j < first_rows(rows).len() && rows[#[trigger] first_rows(rows)[j]].id == id,
    decreases rows.len(),
{
    if rows.len() > 0 {
        let prefix = rows.drop_last();
        lemma_first_rows(prefix);
        let fr = first_rows(rows);
        let pf = first_rows(prefix);
        assert forall|j: int| 0 <= j < pf.len() implies rows[pf[j]] == prefix[pf[j]] && rows.take(pf[j]) == prefix.take(pf[j]) by {
            assert(rows.take(pf[j]) =~= prefix.take(pf[j]));
        }
        assert(rows.take(rows.len() - 1) =~= prefix);
        assert forall|id: u32| seen(rows, id) <==> (seen(prefix, id) || rows.last().id == id) by {
            if seen(rows, id) && !seen(prefix, id) {
                let k = choose|k: int| 0 <= k < rows.len() && (#[trigger] rows[k]).id == id;
                if k < rows.len() - 1 {
                    assert(prefix[k] == rows[k]);
                }
            }
            if seen(prefix, id) {
                let k = choose|k: int| 0 <= k < prefix.len() && (#[trigger] prefix[k]).id == id;
                assert(rows[k] == prefix[k]);
            }
            if rows.last().id == id {
                assert(rows[rows.len() - 1].id == id);
            }
        }
        if !seen(prefix, rows.last().id) {
            assert(fr =~= pf.push(rows.len() - 1));
            assert forall|id: u32| seen(rows, id) implies exists|j: int| 0 <= j < fr.len() && rows[#[trigger] fr[j]].id == id by {
                if seen(prefix, id) {
                    let j = choose|j: int| 0 <= j < pf.len() && prefix[#[trigger] pf[j]].id == id;
                    assert(fr[j] == pf[j]);
                } else {
                    assert(fr[pf.len() as int] == rows.len() - 1);
                }
            }
            assert forall|j1: int, j2: int|
                0 <= j1 < j2 < fr.len() implies rows[#[trigger] fr[j1]].id != rows[#[trigger] fr[j2]].id by {
                if j2 == pf.len() {
                    assert(fr[j1] == pf[j1]);
                    if rows[fr[j1]].id == rows.last().id {
                        assert(prefix[pf[j1]].id == rows.last().id);
                        assert(seen(prefix, rows.last().id));
                    }
                } else {
                    assert(fr[j1] == pf[j1] && fr[j2] == pf[j2]);
                }
            }
            assert forall|j: int| 0 <= j < fr.len() implies !seen(rows.take(#[trigger] fr[j]), rows[fr[j]].id) by {
                if j < pf.len() {
                    assert(fr[j] == pf[j]);
                }
            }
        } else {
            assert(fr == pf);
            assert forall|id: u32| seen(rows, id) implies exists|j: int| 0 <= j < fr.len() && rows[#[trigger] fr[j]].id == id by {
                if seen(prefix, id) {
                    let j = choose|j: int| 0 <= j < pf.len() && prefix[#[trigger] pf[j]].id == id;
                    assert(rows[fr[j]].id == id);
                } else {
                    let j = choose|j: int| 0 <= j < pf.len() && prefix[#[trigger] pf[j]].id == rows.last().id;
                    assert(rows[fr[j]].id == id);
                }
            }
        }
    }
}


pub(crate) fn clone_text(o: &Option<String>) -> (r: Option<String>)
    ensures
        r == *o,
{
    match o {
        Some(s) => Some(s.clone()),
        None => None,
    }
}

fn has_user(ps: &Vec<ParticipantModel>, user_id: u32) -> (r: bool)
    ensures
        r == ps@.contains(ParticipantModel { user_id }),
{
    let mut k: usize = 0;
    while k < ps.len()
        invariant
            k <= ps@.len(),
            forall|m: int| 0 <= m < k ==> ps@[m] != (ParticipantModel { user_id }),
        decreases ps@.len() - k,
    {
        if ps[k].user_id == user_id {
            assert(ps@[k as int] == ParticipantModel { user_id });
            return true;
        }
        k += 1;
    }
    false
}

/// Groups the rows of the events/participants join into one view per event, in the
/// order the events first appear. Each view takes its fields from the event's first
/// row and gathers the users of all of the event's rows, each once. Only the first row of
/// each event is read for its source.
pub fn convert_results_to_events(results: Vec<DatabaseResult>) -> (r: Vec<Event>)
    requires
        sources_valid(results@),
    ensures
        r@.len() == first_rows(results@).len(),
        forall|i: int| 0 <= i < r@.len() ==> assembled(#[trigger] r@[i], results@[first_rows(results@)[i]], results@),
        forall|i: int| 0 <= i < r@.len() ==> (#[trigger] r@[i]).participants@.no_duplicates(),
        forall|i: int, u: u32| 0 <= i < r@.len() ==> (r@[i].participants@.contains(ParticipantModel { user_id: u })
            <==> #[trigger] joins(results@, r@[i].id, u)),
{
    let n = results.len();
    let mut firsts: Vec<usize> = Vec::new();
    let mut i: usize = 0;
    while i < n
        invariant
            n == results@.len(),
            i <= n,
            firsts@.len() == first_rows(results@.take(i as int)).len(),
            forall|j: int| 0 <= j < firsts@.len() ==> firsts@[j] as int == first_rows(results@.take(i as int))[j],
        decreases n - i,
    {
        let ghost prefix = results@.take(i as int);
        proof {
            lemma_first_rows(prefix);
        }
        let id = results[i].id;
        let mut found = false;
        let mut j: usize = 0;
        while j < firsts.len()
            invariant
                n == results@.len(),
                i < n,
                j <= firsts@.len(),
                prefix == results@.take(i as int),
                id == results@[i as int].id,
                firsts@.len() == first_rows(prefix).len(),
                forall|k: int| 0 <= k < firsts@.len() ==> firsts@[k] as int == first_rows(prefix)[k],
                forall|k: int| 0 <= k < first_rows(prefix).len() ==> 0 <= #[trigger] first_rows(prefix)[k] < prefix.len(),
                found <==> exists|k: int| 0 <= k < j && prefix[#[trigger] first_rows(prefix)[k]].id == id,
            decreases firsts@.len() - j,
        {
            let f = firsts[j];
            assert(prefix[f as int] == results@[f as int]);
            if results[f].id == id {
                found = true;
            }
            j += 1;
        }
        let ghost next = results@.take(i + 1);
        assert(next.drop_last() =~= prefix);
        assert(next.last() == results@[i as int]);
        if !found {
            firsts.push(i);
        }
        i += 1;
    }
    assert(results@.take(n as int) =~= results@);
    proof {
        lemma_first_rows(results@);
    }
    let mut events: Vec<Event> = Vec::new();
    let mut k: usize = 0;
    while k < firsts.len()
        invariant
            n == results@.len(),
            sources_valid(results@),
            firsts@.len() == first_rows(results@).len(),
            forall|j: int| 0 <= j < firsts@.len() ==> firsts@[j] as int == first_rows(results@)[j],
            forall|j: int| 0 <= j < first_rows(results@).len() ==> 0 <= #[trigger] first_rows(results@)[j] < results@.len(),
            k <= firsts@.len(),
            events@.len() == k,
            forall|e: int| 0 <= e < k ==> assembled(#[trigger] events@[e], results@[first_rows(results@)[e]], results@),
        decreases firsts@.len() - k,
    {
        let f = firsts[k];
        let row = &results[f];
        let mut participants: Vec<ParticipantModel> = Vec::new();
        let mut m: usize = 0;
        while m < n
            invariant
                n == results@.len(),
                m <= n,
                f < n,
                *row == results@[f as int],
                participants@ == participants_of(results@.take(m as int), row.id),
            decreases n - m,
        {
            let ghost before = results@.take(m as int);
            assert(results@.take(m + 1).drop_last() =~= before);
            let other = &results[m];
            if other.id == row.id {
                match other.user_id {
                    Some(user_id) => {
                        if !has_user(&participants, user_id) {
                            participants.push(ParticipantModel { user_id });
                        }
                    },
                    None => {},
                }
            }
            m += 1;
        }
        assert(results@.take(n as int) =~= results@);
        assert(results@[first_rows(results@)[k as int]].source@ == "local"@
            || results@[first_rows(results@)[k as int]].source@ == "external"@);
        proof {
            lemma_participants_of(results@, row.id);
        }
        let event = Event {
            id: row.id,
            region_id: row.region_id,
            title: row.title.clone(),
            description: clone_text(&row.description),
            reward: row.reward,
            source: Source::from_str(row.source.as_str()),
            url: clone_text(&row.url),
            image_url: clone_text(&row.image_url),
            participants,
        };
        events.push(event);
        k += 1;
    }
    assert forall|i: int| 0 <= i < events@.len() implies (#[trigger] events@[i]).participants@.no_duplicates() by {
        lemma_participants_of(results@, events@[i].id);
    }
    assert forall|i: int, u: u32| 0 <= i < events@.len() implies (events@[i].participants@.contains(
        ParticipantModel { user_id: u },
    ) <==> #[trigger] joins(results@, events@[i].id, u)) by {
        lemma_participants_of(results@, events@[i].id);
    }
    events
}

} // verus!
