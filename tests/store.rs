use sojas_api::pinkpolitiek_api::{PPEvent, PPVenueOrVec, Venue};
use sojas_api::source::Source;
use sojas_api::store::{
    participate_outcome, sync_start, sync_step, EventRow, EventStore, Participant, StoreError, SyncError, SyncStep,
};

fn remote(id: i32, title: &str) -> PPEvent {
    PPEvent {
        id,
        global_id: format!("g{}", id),
        author: "1".to_string(),
        status: "publish".to_string(),
        date: "2024-01-01 10:00:00".to_string(),
        date_utc: "2024-01-01 09:00:00".to_string(),
        modified: "2024-01-02 10:00:00".to_string(),
        modified_utc: "2024-01-02 09:00:00".to_string(),
        url: format!("https://remote.example/{}", id),
        rest_url: format!("https://remote.example/rest/{}", id),
        title: title.to_string(),
        description: format!("{} description", title),
        excerpt: String::new(),
        slug: title.to_lowercase(),
        all_day: id % 2 == 0,
        start_date: "2024-02-01 18:00:00".to_string(),
        venue: PPVenueOrVec::Absent,
    }
}

fn local(id: u32) -> EventRow {
    EventRow {
        id,
        region_id: Some(4),
        title: "Local title".to_string(),
        description: None,
        reward: -25,
        source: Source::Local,
        url: None,
        image_url: Some("https://img.example/a.png".to_string()),
        image_srcset: Some("a.png 1x".to_string()),
        start_date: None,
        all_day: false,
    }
}

#[test]
fn upsert_inserts_new_remote_event() {
    let mut store = EventStore::new();
    assert_eq!(store.upsert_remote(&remote(12, "March")), Ok(()));
    let row = store.event(12).unwrap();
    assert_eq!(row.title, "March");
    assert_eq!(row.description.as_deref(), Some("March description"));
    assert_eq!(row.url.as_deref(), Some("https://remote.example/12"));
    assert_eq!(row.start_date.as_deref(), Some("2024-02-01 18:00:00"));
    assert!(row.all_day);
    assert_eq!(row.source, Source::External);
    assert_eq!(row.region_id, None);
    assert_eq!(row.reward, 0);
}

#[test]
fn repeated_syncs_keep_local_fields() {
    let mut store = EventStore::new();
    assert_eq!(store.insert_local(local(3)), Ok(()));
    for title in ["One", "Two", "Three"] {
        assert_eq!(store.upsert_remote(&remote(3, title)), Ok(()));
    }
    let row = store.event(3).unwrap();
    assert_eq!(row.region_id, Some(4));
    assert_eq!(row.reward, -25);
    assert_eq!(row.image_url.as_deref(), Some("https://img.example/a.png"));
    assert_eq!(row.image_srcset.as_deref(), Some("a.png 1x"));
    assert_eq!(row.title, "Three");
    assert_eq!(row.source, Source::External);
    assert_eq!(store.events().len(), 1);
}

#[test]
fn insert_local_refuses_existing_id() {
    let mut store = EventStore::new();
    assert_eq!(store.insert_local(local(3)), Ok(()));
    assert_eq!(store.insert_local(local(3)), Err(StoreError::Conflict));
    assert_eq!(store.events().len(), 1);
}

#[test]
fn negative_remote_id_is_rejected() {
    let mut store = EventStore::new();
    assert_eq!(store.upsert_remote(&remote(-1, "Bad")), Err(StoreError::Rejected));
    assert!(store.events().is_empty());
}

#[test]
fn sync_pass_stores_all_events() {
    let mut store = EventStore::new();
    let events = vec![remote(1, "A"), remote(2, "B"), remote(1, "A2")];
    assert_eq!(store.store_to_db(&events), Ok(()));
    assert_eq!(store.events().len(), 2);
    assert_eq!(store.event(1).unwrap().title, "A2");
    assert_eq!(store.event(2).unwrap().title, "B");
}

#[test]
fn sync_pass_stops_at_third_of_five() {
    let mut store = EventStore::new();
    assert_eq!(store.insert_local(local(40)), Ok(()));
    let events = vec![remote(10, "A"), remote(20, "B"), remote(-30, "C"), remote(40, "D"), remote(50, "E")];
    assert_eq!(store.store_to_db(&events), Err(SyncError { event_id: -30 }));
    assert_eq!(store.event(10).unwrap().title, "A");
    assert_eq!(store.event(20).unwrap().title, "B");
    let untouched = store.event(40).unwrap();
    assert_eq!(untouched.title, "Local title");
    assert_eq!(untouched.source, Source::Local);
    assert!(store.event(50).is_none());
    assert_eq!(store.events().len(), 3);
}

#[test]
fn participate_twice_keeps_one_row() {
    let mut store = EventStore::new();
    assert_eq!(store.upsert_remote(&remote(5, "E")), Ok(()));
    assert_eq!(store.participate(5, 9), Ok(()));
    assert_eq!(store.participate(5, 9), Ok(()));
    let pair = Participant { event_id: 5, user_id: 9 };
    assert_eq!(store.participants().iter().filter(|p| **p == pair).count(), 1);
    assert_eq!(store.participants().len(), 1);
}

#[test]
fn participate_in_unknown_event_is_not_found() {
    let mut store = EventStore::new();
    assert_eq!(store.participate(5, 9), Err(StoreError::NotFound));
    assert!(store.participants().is_empty());
}

#[test]
fn stop_participating_without_row_changes_nothing() {
    let mut store = EventStore::new();
    assert_eq!(store.upsert_remote(&remote(5, "E")), Ok(()));
    assert_eq!(store.participate(5, 1), Ok(()));
    store.stop_participating(5, 2);
    store.stop_participating(6, 1);
    assert_eq!(store.participants(), &vec![Participant { event_id: 5, user_id: 1 }]);
}

#[test]
fn stop_participating_removes_the_pair() {
    let mut store = EventStore::new();
    assert_eq!(store.upsert_remote(&remote(5, "E")), Ok(()));
    assert_eq!(store.participate(5, 1), Ok(()));
    assert_eq!(store.participate(5, 2), Ok(()));
    store.stop_participating(5, 1);
    assert_eq!(store.participants(), &vec![Participant { event_id: 5, user_id: 2 }]);
}

#[test]
fn list_cached_gives_one_view_per_event() {
    let mut store = EventStore::new();
    for id in [1, 2, 3] {
        assert_eq!(store.upsert_remote(&remote(id, "X")), Ok(()));
    }
    assert_eq!(store.participate(2, 7), Ok(()));
    for user in [1, 2, 3] {
        assert_eq!(store.participate(3, user), Ok(()));
    }
    let views = store.list_cached();
    assert_eq!(views.len(), 3);
    let sizes: Vec<usize> = views.iter().map(|v| v.participants.len()).collect();
    assert_eq!(sizes, vec![0, 1, 3]);
    assert_eq!(views[1].participants[0].user_id, 7);
    assert_eq!(views[0].title, "X");
}

#[test]
fn venue_variants_carry_their_data() {
    let mut e = remote(8, "V");
    e.venue = PPVenueOrVec::Venue(Venue { id: 2, url: "u".to_string(), name: "Hall".to_string(), show_map: true });
    let mut store = EventStore::new();
    assert_eq!(store.store_to_db(&vec![e.clone(), remote(9, "W")]), Ok(()));
    assert_eq!(store.event(8).unwrap().title, "V");
    match e.venue {
        PPVenueOrVec::Venue(v) => assert_eq!(v.name, "Hall"),
        PPVenueOrVec::Absent => panic!("venue lost"),
    }
}

#[test]
fn sync_steps_stop_at_failed_third_write() {
    let events = vec![remote(1, "A"), remote(2, "B"), remote(3, "C"), remote(4, "D"), remote(5, "E")];
    let outcomes = [true, true, false, true, true];
    let mut written = Vec::new();
    let mut step = sync_start(&events);
    let end = loop {
        match step {
            SyncStep::Write(i) => {
                written.push(i);
                step = sync_step(&events, i, outcomes[i]);
            },
            other => break other,
        }
    };
    assert_eq!(written, vec![0, 1, 2]);
    assert_eq!(end, SyncStep::Failed(SyncError { event_id: 3 }));
}

#[test]
fn sync_steps_over_all_and_no_events() {
    let events = vec![remote(1, "A"), remote(2, "B")];
    assert_eq!(sync_start(&events), SyncStep::Write(0));
    assert_eq!(sync_step(&events, 0, true), SyncStep::Write(1));
    assert_eq!(sync_step(&events, 1, true), SyncStep::Done);
    assert_eq!(sync_start(&vec![]), SyncStep::Done);
}

#[test]
fn participate_outcomes() {
    assert_eq!(participate_outcome(false, false), Err(StoreError::NotFound));
    assert_eq!(participate_outcome(true, true), Ok(()));
    assert_eq!(participate_outcome(true, false), Err(StoreError::WriteFailed));
}

#[test]
fn list_cached_ids_are_distinct() {
    let mut store = EventStore::new();
    assert_eq!(store.upsert_remote(&remote(1, "X")), Ok(()));
    assert_eq!(store.upsert_remote(&remote(1, "Y")), Ok(()));
    assert_eq!(store.insert_local(local(2)), Ok(()));
    let ids: Vec<u32> = store.list_cached().iter().map(|v| v.id).collect();
    assert_eq!(ids, vec![1, 2]);
}
