use sojas_api::events::{convert_results_to_events, DatabaseResult, Event};
use sojas_api::source::Source;

fn row(id: u32, title: &str, source: &str, user_id: Option<u32>) -> DatabaseResult {
    DatabaseResult {
        id,
        region_id: Some(7),
        title: title.to_string(),
        description: Some(format!("about {}", title)),
        reward: -5,
        source: source.to_string(),
        url: Some(format!("https://example.org/{}", id)),
        image_url: None,
        image_srcset: None,
        user_id,
    }
}

fn users(e: &Event) -> Vec<u32> {
    e.participants.iter().map(|p| p.user_id).collect()
}

#[test]
fn source_from_text() {
    assert_eq!(Source::from_str("local"), Source::Local);
    assert_eq!(Source::from_str("external"), Source::External);
}

#[test]
fn event_without_participants_gives_one_view() {
    let views = convert_results_to_events(vec![row(1, "a", "external", None)]);
    assert_eq!(views.len(), 1);
    assert_eq!(views[0].id, 1);
    assert!(views[0].participants.is_empty());
}

#[test]
fn event_with_one_participant_gives_one_view() {
    let views = convert_results_to_events(vec![row(1, "a", "external", Some(10))]);
    assert_eq!(views.len(), 1);
    assert_eq!(users(&views[0]), vec![10]);
}

#[test]
fn event_with_three_participants_gives_one_view() {
    let views = convert_results_to_events(vec![
        row(1, "a", "external", Some(10)),
        row(1, "a", "external", Some(11)),
        row(1, "a", "external", Some(12)),
    ]);
    assert_eq!(views.len(), 1);
    assert_eq!(users(&views[0]), vec![10, 11, 12]);
}

#[test]
fn events_of_zero_one_and_three_rows_together() {
    let views = convert_results_to_events(vec![
        row(3, "c", "external", Some(1)),
        row(5, "e", "local", None),
        row(3, "c", "external", Some(2)),
        row(9, "i", "external", Some(4)),
        row(3, "c", "external", Some(8)),
    ]);
    assert_eq!(views.len(), 3);
    assert_eq!(views[0].id, 3);
    assert_eq!(users(&views[0]), vec![1, 2, 8]);
    assert_eq!(views[1].id, 5);
    assert_eq!(views[1].source, Source::Local);
    assert!(views[1].participants.is_empty());
    assert_eq!(views[2].id, 9);
    assert_eq!(users(&views[2]), vec![4]);
}

#[test]
fn view_takes_fields_of_first_row() {
    let views = convert_results_to_events(vec![row(2, "first", "external", Some(1)), row(2, "second", "local", Some(2))]);
    assert_eq!(views.len(), 1);
    let v = &views[0];
    assert_eq!(v.title, "first");
    assert_eq!(v.description.as_deref(), Some("about first"));
    assert_eq!(v.reward, -5);
    assert_eq!(v.region_id, Some(7));
    assert_eq!(v.source, Source::External);
    assert_eq!(v.url.as_deref(), Some("https://example.org/2"));
    assert_eq!(v.image_url, None);
}

#[test]
fn no_rows_give_no_views() {
    assert!(convert_results_to_events(vec![]).is_empty());
}

#[test]
fn duplicate_join_rows_give_each_user_once() {
    let views = convert_results_to_events(vec![
        row(1, "a", "external", Some(7)),
        row(1, "a", "external", Some(7)),
        row(1, "a", "external", Some(8)),
        row(1, "a", "external", None),
    ]);
    assert_eq!(views.len(), 1);
    assert_eq!(users(&views[0]), vec![7, 8]);
}

#[test]
fn only_first_rows_need_a_known_source() {
    let views = convert_results_to_events(vec![row(4, "d", "local", Some(1)), row(4, "d", "other", Some(2))]);
    assert_eq!(views.len(), 1);
    assert_eq!(views[0].source, Source::Local);
    assert_eq!(users(&views[0]), vec![1, 2]);
}
