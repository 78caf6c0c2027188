use ouest::date::Date;
use ouest::event::{resolve, Event, Location, Locations, OuestError, ResolvedEvent};

fn day(year: i32, month: u32, day: u32) -> Date {
    Date::new(year, month, day).unwrap()
}

fn event(from: Date, loc: &str) -> Event {
    Event { from, loc: loc.to_string() }
}

fn places(pairs: &[(&str, &str)]) -> Locations {
    let mut locations = Locations::new();
    for (key, name) in pairs {
        locations.insert(key.to_string(), Location { name: name.to_string() });
    }
    locations
}

fn active(r: Result<Option<ResolvedEvent>, OuestError>) -> ResolvedEvent {
    match r {
        Ok(Some(e)) => e,
        Ok(None) => panic!("no active event"),
        Err(e) => panic!("resolution failed: {:?}", e),
    }
}

fn two_events() -> Vec<Event> {
    vec![event(day(2024, 1, 1), "a"), event(day(2024, 2, 1), "b")]
}

#[test]
fn boundary_day_before_next_start() {
    let locs = places(&[("a", "Alpha"), ("b", "Beta")]);
    let e = active(resolve(day(2024, 1, 31), &two_events(), &locs));
    assert_eq!(e.loc, "a");
    assert_eq!(e.name, "Alpha");
    assert_eq!(e.from, day(2024, 1, 1));
    assert_eq!(e.to, Some(day(2024, 2, 1)));
}

#[test]
fn boundary_on_next_start() {
    let locs = places(&[("a", "Alpha"), ("b", "Beta")]);
    let e = active(resolve(day(2024, 2, 1), &two_events(), &locs));
    assert_eq!(e.loc, "b");
    assert_eq!(e.name, "Beta");
    assert_eq!(e.from, day(2024, 2, 1));
    assert_eq!(e.to, None);
}

#[test]
fn boundary_before_first_start() {
    let locs = places(&[("a", "Alpha"), ("b", "Beta")]);
    assert!(matches!(resolve(day(2023, 12, 31), &two_events(), &locs), Ok(None)));
}

#[test]
fn start_day_is_inclusive() {
    let locs = places(&[("a", "Alpha"), ("b", "Beta")]);
    let e = active(resolve(day(2024, 1, 1), &two_events(), &locs));
    assert_eq!(e.loc, "a");
}

#[test]
fn missing_location() {
    let events = vec![event(day(2024, 1, 1), "x")];
    let r = resolve(day(2024, 1, 5), &events, &Locations::new());
    match r {
        Err(OuestError::UndefinedLocation(k)) => assert_eq!(k, "x"),
        _ => panic!("expected an undefined location"),
    }
}

#[test]
fn missing_location_of_inactive_event_is_no_error() {
    let events = vec![event(day(2024, 1, 1), "a"), event(day(2024, 3, 1), "x")];
    let locs = places(&[("a", "Alpha")]);
    let e = active(resolve(day(2024, 2, 10), &events, &locs));
    assert_eq!(e.loc, "a");
}

#[test]
fn empty_event_set() {
    let locs = places(&[("a", "Alpha")]);
    assert!(matches!(resolve(day(2024, 1, 1), &Vec::new(), &locs), Ok(None)));
    assert!(matches!(resolve(day(1, 1, 1), &Vec::new(), &Locations::new()), Ok(None)));
}

#[test]
fn single_event_far_future() {
    let events = vec![event(day(2099, 1, 1), "z")];
    let locs = places(&[("z", "Zeta")]);
    assert!(matches!(resolve(day(2026, 10, 18), &events, &locs), Ok(None)));
}

#[test]
fn unsorted_input_is_sorted_by_start() {
    let events = vec![
        event(day(2024, 5, 1), "c"),
        event(day(2024, 1, 1), "a"),
        event(day(2024, 3, 1), "b"),
    ];
    let locs = places(&[("a", "Alpha"), ("b", "Beta"), ("c", "Gamma")]);
    let e = active(resolve(day(2024, 4, 15), &events, &locs));
    assert_eq!(e.loc, "b");
    assert_eq!(e.name, "Beta");
    assert_eq!(e.from, day(2024, 3, 1));
    assert_eq!(e.to, Some(day(2024, 5, 1)));
    let last = active(resolve(day(2030, 1, 1), &events, &locs));
    assert_eq!(last.loc, "c");
    assert_eq!(last.to, None);
}

#[test]
fn equal_starts_keep_input_order() {
    let events = vec![
        event(day(2024, 1, 1), "first"),
        event(day(2024, 1, 1), "second"),
        event(day(2024, 6, 1), "later"),
    ];
    let locs = places(&[("first", "One"), ("second", "Two"), ("later", "Three")]);
    let e = active(resolve(day(2024, 2, 1), &events, &locs));
    assert_eq!(e.loc, "second");
    assert_eq!(e.from, day(2024, 1, 1));
    assert_eq!(e.to, Some(day(2024, 6, 1)));
}

#[test]
fn interval_contains_query_date() {
    let events = vec![
        event(day(2024, 1, 1), "a"),
        event(day(2024, 2, 1), "b"),
        event(day(2024, 3, 1), "c"),
    ];
    let locs = places(&[("a", "A"), ("b", "B"), ("c", "C")]);
    let now = day(2024, 2, 14);
    let e = active(resolve(now, &events, &locs));
    assert!(!now.is_before(&e.from));
    assert!(now.is_before(&e.to.unwrap()));
    assert_eq!(e.loc, "b");
}

#[test]
fn repeated_resolution_agrees() {
    let events = two_events();
    let locs = places(&[("a", "Alpha"), ("b", "Beta")]);
    let first = active(resolve(day(2024, 1, 20), &events, &locs));
    let second = active(resolve(day(2024, 1, 20), &events, &locs));
    assert_eq!(first.loc, second.loc);
    assert_eq!(first.name, second.name);
    assert_eq!(first.from, second.from);
    assert_eq!(first.to, second.to);
}

#[test]
fn later_dates_do_not_go_back() {
    let events = vec![
        event(day(2024, 3, 1), "c"),
        event(day(2024, 1, 1), "a"),
        event(day(2024, 2, 1), "b"),
    ];
    let locs = places(&[("a", "A"), ("b", "B"), ("c", "C")]);
    let order = ["a", "b", "c"];
    let mut seen = 0;
    for (m, d) in [(1, 1), (1, 15), (2, 1), (2, 29), (3, 1), (12, 31)] {
        let e = active(resolve(day(2024, m, d), &events, &locs));
        let pos = order.iter().position(|k| *k == e.loc).unwrap();
        assert!(pos >= seen);
        seen = pos;
    }
    assert_eq!(seen, 2);
}

#[test]
fn later_location_entry_replaces_earlier() {
    let locs = places(&[("a", "Old"), ("a", "New")]);
    assert_eq!(locs.get(&"a".to_string()).unwrap().name, "New");
    assert!(locs.get(&"b".to_string()).is_none());
}

#[test]
fn event_equality_is_structural() {
    assert!(event(day(2024, 1, 1), "a") == event(day(2024, 1, 1), "a"));
    assert!(event(day(2024, 1, 1), "a") != event(day(2024, 1, 2), "a"));
    assert!(event(day(2024, 1, 1), "a") != event(day(2024, 1, 1), "b"));
}
