use ezviz::photo_index::IndexError;
use ezviz::photo_index::PhotoIndex;
use ezviz::photo_index::PhotoRecord;
use ezviz::predicate::make_predicate;
use ezviz::predicate::Predicate;

fn pairs(records: &[PhotoRecord]) -> Vec<(i64, String)> {
    records.iter().map(|r| (r.timestamp, r.reference.clone())).collect()
}

fn pair(timestamp: i64, reference: &str) -> (i64, String) {
    (timestamp, reference.to_string())
}

#[test]
fn new_index_is_empty() {
    let index = PhotoIndex::new();
    assert_eq!(index.len(), 0);
    assert!(index.select(&Predicate::everything()).is_empty());
}

#[test]
fn select_everything_is_ascending() {
    let mut index = PhotoIndex::new();
    for (t, r) in [(30, "c"), (10, "a"), (20, "b"), (-5, "z"), (25, "m")] {
        assert_eq!(index.insert(t, r.to_string()), Ok(()));
    }
    assert_eq!(index.len(), 5);
    assert_eq!(
        pairs(&index.select(&Predicate::everything())),
        vec![pair(-5, "z"), pair(10, "a"), pair(20, "b"), pair(25, "m"), pair(30, "c")]
    );
}

#[test]
fn later_insert_replaces_the_same_second() {
    let mut index = PhotoIndex::new();
    assert_eq!(index.insert(10, "first".to_string()), Ok(()));
    assert_eq!(index.insert(20, "other".to_string()), Ok(()));
    assert_eq!(index.insert(10, "second".to_string()), Ok(()));
    assert_eq!(index.insert(10, "third".to_string()), Ok(()));
    assert_eq!(index.len(), 2);
    assert_eq!(
        pairs(&index.select(&Predicate::everything())),
        vec![pair(10, "third"), pair(20, "other")]
    );
}

#[test]
fn most_recent_record_per_timestamp_survives_any_order() {
    let inserts = [(5, "a"), (3, "b"), (5, "c"), (9, "d"), (3, "e"), (1, "f"), (9, "g"), (5, "h")];
    let mut index = PhotoIndex::new();
    for (t, r) in inserts {
        assert_eq!(index.insert(t, r.to_string()), Ok(()));
    }
    assert_eq!(
        pairs(&index.select(&Predicate::everything())),
        vec![pair(1, "f"), pair(3, "e"), pair(5, "h"), pair(9, "g")]
    );
}

#[test]
fn select_nothing_is_empty() {
    let mut index = PhotoIndex::new();
    assert_eq!(index.insert(10, "a".to_string()), Ok(()));
    assert!(index.select(&Predicate::nothing()).is_empty());
    assert_eq!(index.len(), 1);
}

#[test]
fn select_filters_by_the_predicate() {
    let day = 86_400;
    let new_year = 1_704_067_200;
    let mut index = PhotoIndex::new();
    for k in 0..10 {
        assert_eq!(index.insert(new_year + k * day, format!("photo{}", k)), Ok(()));
    }
    let p = make_predicate("after 2024-01-03,before 2024-01-07", 0);
    assert_eq!(
        pairs(&index.select(&p)),
        vec![
            pair(new_year + 3 * day, "photo3"),
            pair(new_year + 4 * day, "photo4"),
            pair(new_year + 5 * day, "photo5"),
        ]
    );
    assert_eq!(index.len(), 10);
}

#[test]
fn first_and_last_instant_of_the_calendar_are_kept() {
    let first = chrono::DateTime::<chrono::Utc>::MIN_UTC.timestamp();
    let last = chrono::DateTime::<chrono::Utc>::MAX_UTC.timestamp();
    let mut index = PhotoIndex::new();
    assert_eq!(index.insert(last, "last".to_string()), Ok(()));
    assert_eq!(index.insert(first, "first".to_string()), Ok(()));
    assert_eq!(index.insert(0, "epoch".to_string()), Ok(()));
    assert_eq!(
        pairs(&index.select(&Predicate::everything())),
        vec![pair(first, "first"), pair(0, "epoch"), pair(last, "last")]
    );
}

#[test]
fn capture_time_without_a_calendar_date_is_refused() {
    let first = chrono::DateTime::<chrono::Utc>::MIN_UTC.timestamp();
    let last = chrono::DateTime::<chrono::Utc>::MAX_UTC.timestamp();
    let mut index = PhotoIndex::new();
    assert_eq!(index.insert(10, "a".to_string()), Ok(()));
    for t in [i64::MAX, i64::MIN, last + 1, first - 1] {
        assert_eq!(index.insert(t, "x".to_string()), Err(IndexError::NoCalendarDate));
    }
    assert_eq!(index.len(), 1);
    assert_eq!(pairs(&index.select(&Predicate::everything())), vec![pair(10, "a")]);
}

#[test]
fn insert_records_at_t1_t2_t3_and_select_between() {
    let t1 = 1_704_067_200 + 3_600;
    let t2 = t1 + 60;
    let t3 = t2 + 60;
    let mut index = PhotoIndex::new();
    assert_eq!(index.insert(t1, "a".to_string()), Ok(()));
    assert_eq!(index.insert(t2, "b".to_string()), Ok(()));
    assert_eq!(index.insert(t3, "c".to_string()), Ok(()));
    let format = |t: i64| {
        chrono::DateTime::from_timestamp(t, 0).unwrap().format("%Y-%m-%d %H:%M:%S").to_string()
    };
    let query = format!("since {},before {}", format(t1), format(t3));
    assert_eq!(query, "since 2024-01-01 01:00:00,before 2024-01-01 01:02:00");
    let chosen = index.select(&make_predicate(&query, t3 + 1));
    assert_eq!(pairs(&chosen), vec![pair(t2, "b")]);
    // With a space behind the comma the second clause has no keyword, and the
    // query accepts nothing.
    let spaced = format!("since {}, before {}", format(t1), format(t3));
    assert!(index.select(&make_predicate(&spaced, t3 + 1)).is_empty());
}
