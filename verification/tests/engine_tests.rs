use edit_days::calendar::Day;
use edit_days::error::Error;
use edit_days::index::{ActivityIndex, EditEvent};
use edit_days::report::{
    clamp, day_list, join_with_commas, resolve_span, DayTotals, ReportOptions, UserRow,
};
use edit_days::set_index::SetIndex;
use edit_days::sorted_set::SortedSet;
use edit_days::timestamp::Timestamp;
use edit_days::window::{count_at_least, SUPER_USER_DAYS, WINDOW_DAYS};

fn day(year: i32, month: u32, day: u32) -> Day {
    Day::from_ymd(year, month, day).unwrap()
}

fn edit(editor: u32, name: &str, timestamp: i64, on: Day) -> EditEvent {
    EditEvent { editor_id: editor, editor_name: name.to_string(), timestamp, day: on }
}

fn rows_of(index: &SetIndex) -> Vec<(i64, Vec<i64>)> {
    (0..index.len()).map(|i| (index.key_at(i), index.set_at(i).to_vec())).collect()
}

fn name_of(index: &ActivityIndex, editor: u32) -> Option<String> {
    index.name_index().get(editor as i64).map(|(_, name)| name.clone())
}

fn three_edits() -> ActivityIndex {
    let mut index = ActivityIndex::new();
    index.fold_event(&edit(7, "seven", 1, day(2020, 1, 1)));
    index.fold_event(&edit(7, "seven", 2, day(2020, 1, 2)));
    index.fold_event(&edit(9, "nine", 3, day(2020, 1, 2)));
    index
}

fn daily_editor(editor: u32, first: Day, days: i32) -> Vec<EditEvent> {
    (0..days)
        .map(|i| edit(editor, "daily", i as i64, Day::from_number(first.number() + i).unwrap()))
        .collect()
}

#[test]
fn two_editors_on_two_days() {
    let index = three_edits();
    let second = day(2020, 1, 2);
    assert_eq!(index.daily_active_users(second), 2);
    assert_eq!(index.daily_active_users(day(2020, 1, 1)), 1);
    let window = index.rolling_window(second);
    assert_eq!(
        rows_of(&window),
        vec![
            (7, vec![day(2020, 1, 1).number() as i64, second.number() as i64]),
            (9, vec![second.number() as i64]),
        ]
    );
    let rows = index.qualifying_users(second, 2);
    assert_eq!(rows.len(), 1);
    assert_eq!(rows[0].editor_id, 7);
    assert_eq!(rows[0].day, second);
    assert_eq!(rows[0].day_count, 2);
    assert_eq!(rows[0].latest_name, "seven");
    assert!(!rows[0].is_super_user);
    assert_eq!(rows[0].super_user_label(), "no");
    assert_eq!(rows[0].day_list, "01.01.,02.01.");
}

#[test]
fn equal_timestamps_keep_the_name_merged_last() {
    let at = day(2021, 5, 6);
    let alice = ActivityIndex::aggregate(&vec![edit(5, "Alice", 1000, at)]);
    let bob = ActivityIndex::aggregate(&vec![edit(5, "Bob", 1000, at)]);

    let mut alice_then_bob = ActivityIndex::new();
    alice_then_bob.merge(&alice);
    alice_then_bob.merge(&bob);
    assert_eq!(name_of(&alice_then_bob, 5), Some("Bob".to_string()));

    let mut bob_then_alice = ActivityIndex::new();
    bob_then_alice.merge(&bob);
    bob_then_alice.merge(&alice);
    assert_eq!(name_of(&bob_then_alice, 5), Some("Alice".to_string()));

    let mut folded = ActivityIndex::new();
    folded.fold_event(&edit(5, "Alice", 1000, at));
    folded.fold_event(&edit(5, "Bob", 1000, at));
    assert_eq!(name_of(&folded, 5), Some("Bob".to_string()));
    let mut folded_back = ActivityIndex::new();
    folded_back.fold_event(&edit(5, "Bob", 1000, at));
    folded_back.fold_event(&edit(5, "Alice", 1000, at));
    assert_eq!(name_of(&folded_back, 5), Some("Alice".to_string()));
}

#[test]
fn latest_name_follows_the_timestamp() {
    let at = day(2021, 5, 6);
    let mut index = ActivityIndex::new();
    index.fold_event(&edit(5, "new", 2000, at));
    index.fold_event(&edit(5, "old", 1000, at));
    assert_eq!(name_of(&index, 5), Some("new".to_string()));
    index.fold_event(&edit(5, "newer", 3000, at));
    assert_eq!(name_of(&index, 5), Some("newer".to_string()));
    assert_eq!(index.name_index().get(5).map(|(t, _)| t), Some(3000));
    index.fold_event(&edit(5, "newer", 4000, at));
    assert_eq!(index.name_index().get(5).map(|(t, _)| t), Some(3000));
    assert_eq!(name_of(&index, 6), None);
}

#[test]
fn decode_makes_an_event_of_what_a_source_delivers() {
    let event = EditEvent::decode(
        Some(12),
        Some("mapper".to_string()),
        Some(Timestamp::Epoch(1_577_836_800)),
    )
    .unwrap();
    assert_eq!(event.editor_id, 12);
    assert_eq!(event.editor_name, "mapper");
    assert_eq!(event.timestamp, 1_577_836_800);
    assert_eq!(event.day, day(2020, 1, 1));
    let written = EditEvent::decode(
        Some(13),
        Some("writer".to_string()),
        Some(Timestamp::Iso("2020-01-02T00:00:10Z".to_string())),
    )
    .unwrap();
    assert_eq!(written.timestamp, 1_577_923_210);
    assert_eq!(written.day, day(2020, 1, 2));
}

#[test]
fn assemble_needs_every_part() {
    let on = day(2020, 1, 1);
    let name = || Some("mapper".to_string());
    let event = EditEvent::assemble(Some(3), name(), 77, Some(on)).unwrap();
    assert_eq!(event.editor_id, 3);
    assert_eq!(event.editor_name, "mapper");
    assert_eq!(event.timestamp, 77);
    assert_eq!(event.day, on);
    assert_eq!(EditEvent::assemble(None, name(), 77, Some(on)).err(), Some(Error::MalformedEvent));
    assert_eq!(EditEvent::assemble(Some(3), None, 77, Some(on)).err(), Some(Error::MalformedEvent));
    assert_eq!(EditEvent::assemble(Some(3), name(), 77, None).err(), Some(Error::MalformedEvent));
}

#[test]
fn decode_rejects_malformed_events() {
    let time = || Some(Timestamp::Epoch(1_577_836_800));
    let name = || Some("mapper".to_string());
    assert_eq!(EditEvent::decode(None, name(), time()).err(), Some(Error::MalformedEvent));
    assert_eq!(EditEvent::decode(Some(1), None, time()).err(), Some(Error::MalformedEvent));
    assert_eq!(EditEvent::decode(Some(1), name(), None).err(), Some(Error::MalformedEvent));
    assert_eq!(
        EditEvent::decode(Some(1), name(), Some(Timestamp::Iso("2020-13-01T00:00:00Z".to_string())))
            .err(),
        Some(Error::MalformedEvent)
    );
    assert_eq!(
        EditEvent::decode(Some(1), name(), Some(Timestamp::Iso("no time".to_string()))).err(),
        Some(Error::MalformedEvent)
    );
}

#[test]
fn merging_parts_gives_what_one_worker_folds() {
    let events = vec![
        edit(7, "a", 1, day(2020, 1, 1)),
        edit(9, "b", 2, day(2020, 1, 2)),
        edit(7, "a", 3, day(2020, 1, 2)),
        edit(3, "c", 4, day(2019, 12, 31)),
        edit(9, "b", 5, day(2020, 1, 2)),
        edit(7, "a", 6, day(2020, 3, 1)),
    ];
    let whole = ActivityIndex::aggregate(&events);
    let first = ActivityIndex::aggregate(&events[0..2].to_vec());
    let second = ActivityIndex::aggregate(&events[2..3].to_vec());
    let third = ActivityIndex::aggregate(&events[3..6].to_vec());

    let mut left_first = ActivityIndex::new();
    left_first.merge(&first);
    left_first.merge(&second);
    left_first.merge(&third);

    let mut right_pair = ActivityIndex::new();
    right_pair.merge(&third);
    right_pair.merge(&second);
    let mut right_first = ActivityIndex::new();
    right_first.merge(&right_pair);
    right_first.merge(&first);

    for merged in [&left_first, &right_first] {
        assert_eq!(rows_of(merged.user_activity()), rows_of(whole.user_activity()));
        assert_eq!(rows_of(merged.day_activity()), rows_of(whole.day_activity()));
    }
    let d = |y, m, dd| day(y, m, dd).number() as i64;
    assert_eq!(
        rows_of(whole.user_activity()),
        vec![
            (3, vec![d(2019, 12, 31)]),
            (7, vec![d(2020, 1, 1), d(2020, 1, 2), d(2020, 3, 1)]),
            (9, vec![d(2020, 1, 2)]),
        ]
    );
}

#[test]
fn the_two_activity_maps_mirror_each_other() {
    let mut index = three_edits();
    index.merge(&ActivityIndex::aggregate(&daily_editor(4, day(2019, 12, 30), 5)));
    let by_editor = rows_of(index.user_activity());
    let by_day = rows_of(index.day_activity());
    let mut pairs: Vec<(i64, i64)> = Vec::new();
    for (editor, days) in &by_editor {
        for d in days {
            pairs.push((*d, *editor));
        }
    }
    pairs.sort();
    let mut mirrored: Vec<(i64, i64)> = Vec::new();
    for (d, editors) in &by_day {
        for editor in editors {
            mirrored.push((*d, *editor));
        }
    }
    assert_eq!(pairs, mirrored);
    assert_eq!(pairs.len(), 8);
    assert_eq!(index.name_index().len(), index.user_activity().len());
}

#[test]
fn window_reaches_back_364_days() {
    let target = day(2021, 6, 30);
    let oldest = target.minus_days(364).unwrap();
    let too_old = target.minus_days(365).unwrap();
    let mut index = ActivityIndex::new();
    index.fold_event(&edit(1, "in", 0, oldest));
    index.fold_event(&edit(2, "out", 0, too_old));
    index.fold_event(&edit(3, "today", 0, target));
    index.fold_event(&edit(4, "later", 0, Day::from_number(target.number() + 1).unwrap()));
    let window = index.rolling_window(target);
    assert_eq!(
        rows_of(&window),
        vec![(1, vec![oldest.number() as i64]), (3, vec![target.number() as i64])]
    );
    assert_eq!(WINDOW_DAYS, 365);
    assert_eq!(rows_of(&index.rolling_window(day(2010, 1, 1))), vec![]);
    assert_eq!(index.daily_active_users(day(2010, 1, 1)), 0);
}

#[test]
fn window_count_grows_until_days_drop_out() {
    let first = day(2020, 1, 1);
    let index = ActivityIndex::aggregate(&daily_editor(1, first, 400));
    let mut previous = 0;
    for offset in 0..365 {
        let target = Day::from_number(first.number() + offset).unwrap();
        let window = index.rolling_window(target);
        let count = window.get(1).unwrap().len();
        assert_eq!(count, offset as usize + 1);
        assert!(count >= previous);
        previous = count;
    }
    for offset in 365..420 {
        let target = Day::from_number(first.number() + offset).unwrap();
        let count = index.rolling_window(target).get(1).unwrap().len();
        assert!(count <= 365);
        assert_eq!(count, if offset < 400 { 365 } else { (399 - (offset - 364) + 1) as usize });
    }
}

#[test]
fn super_users_are_those_listed_from_42_days() {
    let first = day(2020, 2, 1);
    let mut events = daily_editor(1, first, 42);
    events.extend(daily_editor(2, first, 41));
    events.extend(daily_editor(3, first, 60));
    let index = ActivityIndex::aggregate(&events);
    assert_eq!(SUPER_USER_DAYS, 42);
    for offset in [0, 40, 41, 42, 59, 100, 364 + 17, 364 + 18, 364 + 19, 364 + 59, 364 + 60] {
        let target = Day::from_number(first.number() + offset).unwrap();
        let listed = index.qualifying_users(target, SUPER_USER_DAYS);
        assert_eq!(index.super_user_count(target, SUPER_USER_DAYS), listed.len());
        assert!(listed.iter().all(|row| row.is_super_user && row.super_user_label() == "yes"));
    }
    let at = |offset: i32| Day::from_number(first.number() + offset).unwrap();
    assert_eq!(index.super_user_count(at(40), SUPER_USER_DAYS), 0);
    assert_eq!(index.super_user_count(at(41), SUPER_USER_DAYS), 2);
    assert_eq!(index.super_user_count(at(364), SUPER_USER_DAYS), 2);
    assert_eq!(index.super_user_count(at(365), SUPER_USER_DAYS), 1);
    assert_eq!(index.super_user_count(at(364 + 18), SUPER_USER_DAYS), 1);
    assert_eq!(index.super_user_count(at(364 + 19), SUPER_USER_DAYS), 0);
    assert_eq!(index.super_user_count(at(41), 41), 3);
    assert_eq!(index.super_user_count(at(41), 0), 3);
    let ids: Vec<u32> = index.qualifying_users(at(41), 42).iter().map(|r| r.editor_id).collect();
    assert_eq!(ids, vec![1, 3]);
}

#[test]
fn asking_twice_gives_the_same_window() {
    let index = three_edits();
    let target = day(2020, 1, 2);
    let first = index.rolling_window(target);
    let second = index.rolling_window(target);
    assert_eq!(rows_of(&first), rows_of(&second));
    assert_eq!(rows_of(index.day_activity()).len(), 2);
    assert_eq!(index.daily_active_users(target), 2);
}

#[test]
fn count_at_least_counts_rows_by_size() {
    let mut window = SetIndex::new();
    window.insert(1, 10);
    window.insert(2, 10);
    window.insert(2, 11);
    window.insert(3, 10);
    window.insert(3, 11);
    window.insert(3, 12);
    assert_eq!(count_at_least(&window, 0), 3);
    assert_eq!(count_at_least(&window, 1), 3);
    assert_eq!(count_at_least(&window, 2), 2);
    assert_eq!(count_at_least(&window, 3), 1);
    assert_eq!(count_at_least(&window, 4), 0);
    assert_eq!(count_at_least(&SetIndex::new(), 0), 0);
}

#[test]
fn listing_with_no_minimum_holds_every_editor_of_the_window() {
    let index = three_edits();
    let rows = index.qualifying_users(day(2020, 1, 2), 0);
    let ids: Vec<u32> = rows.iter().map(|r| r.editor_id).collect();
    assert_eq!(ids, vec![7, 9]);
    assert_eq!(rows[1].latest_name, "nine");
    assert_eq!(rows[1].day_list, "02.01.");
    assert_eq!(rows[1].day_count, 1);
    assert!(index.qualifying_users(day(2019, 12, 31), 0).is_empty());
    assert!(index.qualifying_users(day(2020, 1, 2), 3).is_empty());
}

#[test]
fn commas_stand_between_parts_only() {
    assert_eq!(join_with_commas(&vec![]), "");
    assert_eq!(join_with_commas(&vec!["a".to_string()]), "a");
    assert_eq!(join_with_commas(&vec!["a".to_string(), "".to_string(), "c".to_string()]), "a,,c");
}

#[test]
fn day_list_is_written_in_ascending_order() {
    let mut days = SortedSet::new();
    days.insert(day(2020, 3, 1).number() as i64);
    days.insert(day(2019, 12, 24).number() as i64);
    days.insert(day(2020, 2, 29).number() as i64);
    assert_eq!(day_list(&days), "24.12.,29.02.,01.03.");
    assert_eq!(day_list(&SortedSet::new()), "");
}

#[test]
fn clamp_returns_the_bound_that_is_passed() {
    let low = day(2020, 1, 10);
    let high = day(2020, 1, 20);
    assert_eq!(clamp(day(2020, 1, 15), low, high), day(2020, 1, 15));
    assert_eq!(clamp(day(2020, 1, 1), low, high), low);
    assert_eq!(clamp(day(2020, 2, 1), low, high), high);
    assert_eq!(clamp(low, low, high), low);
    assert_eq!(clamp(high, low, high), high);
    assert_eq!(clamp(day(2020, 1, 15), high, low), low);
}

#[test]
fn span_defaults_to_the_observed_range() {
    let observed = (day(2020, 1, 1), day(2020, 12, 31));
    assert_eq!(resolve_span(observed, None, None, None), Ok(observed));
    assert_eq!(resolve_span(observed, None, None, Some(3)), Ok(observed));
    assert_eq!(
        resolve_span(observed, Some(day(2019, 1, 1)), Some(day(2022, 1, 1)), Some(3)),
        Ok(observed)
    );
    assert_eq!(
        resolve_span(observed, Some(day(2020, 3, 1)), Some(day(2020, 4, 1)), Some(3)),
        Ok((day(2020, 3, 1), day(2020, 4, 1)))
    );
}

#[test]
fn short_span_starts_earlier() {
    let observed = (day(2020, 1, 1), day(2020, 12, 31));
    assert_eq!(
        resolve_span(observed, Some(day(2020, 3, 1)), Some(day(2020, 3, 2)), Some(3)),
        Ok((day(2020, 2, 27), day(2020, 3, 2)))
    );
    assert_eq!(
        resolve_span(observed, Some(day(2020, 3, 1)), Some(day(2020, 3, 4)), Some(3)),
        Ok((day(2020, 3, 1), day(2020, 3, 4)))
    );
    assert_eq!(
        resolve_span(observed, Some(day(2020, 1, 1)), Some(day(2020, 1, 1)), Some(3)),
        Ok((day(2019, 12, 29), day(2020, 1, 1)))
    );
    assert_eq!(
        resolve_span(observed, Some(day(2020, 1, 1)), Some(day(2020, 1, 1)), Some(0)),
        Ok((day(2020, 1, 1), day(2020, 1, 1)))
    );
    let single = (day(2020, 5, 5), day(2020, 5, 5));
    assert_eq!(resolve_span(single, None, None, Some(3)), Ok((day(2020, 5, 2), day(2020, 5, 5))));
    assert_eq!(resolve_span(single, None, None, None), Ok(single));
}

#[test]
fn inverted_span_is_a_configuration_error() {
    let observed = (day(2020, 1, 1), day(2020, 12, 31));
    assert_eq!(
        resolve_span(observed, Some(day(2020, 6, 1)), Some(day(2020, 5, 1)), Some(3)),
        Err(Error::ConfigurationRange)
    );
    assert_eq!(
        resolve_span(observed, Some(day(2020, 6, 1)), Some(day(2020, 5, 31)), None),
        Err(Error::ConfigurationRange)
    );
    assert_eq!(
        resolve_span(observed, Some(day(2020, 6, 1)), Some(day(2020, 6, 1)), None),
        Ok((day(2020, 6, 1), day(2020, 6, 1)))
    );
}

#[test]
fn span_that_leaves_the_calendar_is_a_configuration_error() {
    let observed = (day(2020, 1, 1), day(2020, 1, 2));
    assert_eq!(resolve_span(observed, None, None, Some(u32::MAX)), Err(Error::ConfigurationRange));
}

#[test]
fn observed_range_spans_first_to_last_edit() {
    let index = three_edits();
    assert_eq!(index.observed_range(), Ok((day(2020, 1, 1), day(2020, 1, 2))));
    assert_eq!(ActivityIndex::new().observed_range(), Err(Error::EmptyInput));
    assert_eq!(ActivityIndex::aggregate(&Vec::new()).observed_range(), Err(Error::EmptyInput));
}

#[test]
fn report_span_applies_the_options_to_the_observed_range() {
    let index = three_edits();
    let options = ReportOptions::default();
    assert_eq!(options.min_edit_days, 20);
    assert_eq!(options.min_num_days, Some(3));
    assert_eq!(options.start_date, None);
    assert_eq!(options.end_date, None);
    assert_eq!(index.report_span(&options), Ok((day(2019, 12, 29), day(2020, 1, 2))));
    assert_eq!(ActivityIndex::new().report_span(&options), Err(Error::EmptyInput));
    let inverted = ReportOptions {
        start_date: Some(day(2020, 1, 2)),
        end_date: Some(day(2020, 1, 1)),
        ..options
    };
    assert_eq!(index.report_span(&inverted), Err(Error::ConfigurationRange));
}

#[test]
fn per_day_report_has_a_row_for_every_day() {
    let mut index = three_edits();
    index.fold_event(&edit(9, "nine", 9, day(2020, 1, 5)));
    let rows = index.per_day_report().unwrap();
    let expected: Vec<DayTotals> = vec![
        DayTotals { day: day(2020, 1, 1), active_users: 1, rolling_users: 1, super_users: 0 },
        DayTotals { day: day(2020, 1, 2), active_users: 2, rolling_users: 2, super_users: 0 },
        DayTotals { day: day(2020, 1, 3), active_users: 0, rolling_users: 2, super_users: 0 },
        DayTotals { day: day(2020, 1, 4), active_users: 0, rolling_users: 2, super_users: 0 },
        DayTotals { day: day(2020, 1, 5), active_users: 1, rolling_users: 2, super_users: 0 },
    ];
    assert_eq!(rows, expected);
    assert_eq!(ActivityIndex::new().per_day_report().err(), Some(Error::EmptyInput));
    assert_eq!(index.day_totals(day(2020, 12, 31)).rolling_users, 2);
    assert_eq!(index.day_totals(day(2021, 1, 1)).rolling_users, 1);
    assert_eq!(index.day_totals(day(2021, 1, 3)).rolling_users, 1);
    assert_eq!(index.day_totals(day(2021, 1, 4)).rolling_users, 0);
}

#[test]
fn per_user_report_lists_day_by_day() {
    let index = three_edits();
    let rows: Vec<UserRow> = index.per_user_report(day(2019, 12, 31), day(2020, 1, 3), 1);
    let listed: Vec<(String, u32, usize, String)> = rows
        .iter()
        .map(|r| (r.day.iso_text(), r.editor_id, r.day_count, r.day_list.clone()))
        .collect();
    let row = |d: &str, id: u32, n: usize, l: &str| (d.to_string(), id, n, l.to_string());
    assert_eq!(
        listed,
        vec![
            row("2020-01-01", 7, 1, "01.01."),
            row("2020-01-02", 7, 2, "01.01.,02.01."),
            row("2020-01-02", 9, 1, "02.01."),
            row("2020-01-03", 7, 2, "01.01.,02.01."),
            row("2020-01-03", 9, 1, "02.01."),
        ]
    );
    assert!(index.per_user_report(day(2020, 1, 3), day(2020, 1, 1), 1).is_empty());
    let strict = index.per_user_report(day(2020, 1, 1), day(2020, 1, 3), 2);
    assert_eq!(strict.len(), 2);
    assert!(strict.iter().all(|r| r.editor_id == 7 && r.latest_name == "seven"));
}
