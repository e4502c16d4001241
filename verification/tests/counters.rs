use pyruse::counter::Counters;
use pyruse::value::Value;

#[test]
fn set_forces_the_value_of_a_counter() {
    let now: i64 = 1000;
    let mut counters = Counters::new();
    let key = Value::Int(5);
    let value = counters.set(("test", &key), (9, None), now);
    assert_eq!(value, 9);
    assert_eq!(Some((9, None)), counters.peek(("test", &key)));
}

#[test]
fn a_counter_starts_from_0() {
    let now: i64 = 1000;
    let mut counters = Counters::new();
    let key = Value::Bool(true);
    assert_eq!(None, counters.peek(("test", &key)));
    let value = counters.augment(("test", &key), (1, None), now);
    assert_eq!(value, 1);
    assert_eq!(Some((1, None)), counters.peek(("test", &key)));
}

#[test]
fn augment_raises_a_counter_by_its_amount() {
    let now: i64 = 1000;
    let mut counters = Counters::new();
    let str_value = Value::Str("string".into());
    counters.set(("test", &str_value), (4, None), now);
    let value = counters.augment(("test", &str_value), (3, None), now);
    assert_eq!(value, 7);
}

#[test]
fn reset_without_gracetime_removes_a_counter() {
    let now: i64 = 1000;
    let mut counters = Counters::new();
    let date_value = Value::Date(now);
    counters.augment(("test", &date_value), (5, None), now);
    assert_eq!(Some((5, None)), counters.peek(("test", &date_value)));
    let value = counters.reset(("test", &Value::Date(now)), None, now);
    assert_eq!(value, 0);
    assert_eq!(None, counters.peek(("test", &date_value)));
}

#[test]
fn augment_records_the_longest_datetime() {
    let now: i64 = 1000;
    let mut counters = Counters::new();
    let key = Value::Bool(true);
    let old_dt: i64 = now + 60;
    let new_dt: i64 = now + 61;
    assert!(old_dt < new_dt);
    counters.augment(("test", &key), (1, Some(new_dt)), now);
    counters.augment(("test", &key), (3, Some(old_dt)), now);
    let stored = counters.peek(("test", &key)).unwrap();
    assert_eq!(stored.1, Some(new_dt));
}

#[test]
fn augment_without_timeout_is_ignored_in_the_presence_of_a_gracetime() {
    let now: i64 = 1000;
    let mut counters = Counters::new();
    let key = Value::Bool(true);
    let future_dt: i64 = now + 86400;
    counters.reset(("test", &key), Some(future_dt), now);
    let value = counters.augment(("test", &key), (3, None), now);
    assert_eq!(value, 0);
    assert_eq!(Some((0, Some(future_dt))), counters.peek(("test", &key)));
}

#[test]
fn augment_with_timeout_is_ignored_in_the_presence_of_a_gracetime() {
    let now: i64 = 1000;
    let mut counters = Counters::new();
    let key = Value::Bool(true);
    let future_dt: i64 = now + 86400;
    let soon_dt: i64 = now + 3600;
    counters.reset(("test", &key), Some(future_dt), now);
    let value = counters.augment(("test", &key), (3, Some(soon_dt)), now);
    assert_eq!(value, 0);
    assert_eq!(Some((0, Some(future_dt))), counters.peek(("test", &key)));
}

#[test]
fn augment_also_cleans_obsolete_counters() {
    let now: i64 = 1000;
    let mut counters = Counters::new();
    let key1 = Value::Bool(true);
    counters.augment(("test", &key1), (3, Some(now + 1)), now);
    assert_eq!(1, counters.len());
    assert_eq!(Some((3, Some(now + 1))), counters.peek(("test", &key1)));
    let later: i64 = now + 2;
    let key2 = Value::Bool(false);
    let value = counters.augment(("test2", &key2), (5, None), later);
    assert_eq!(value, 5);
    assert_eq!(1, counters.len());
    assert_eq!(Some((5, None)), counters.peek(("test2", &key2)));
}

#[test]
fn reset_with_later_grace_keeps_the_stored_grace() {
    let now: i64 = 1000;
    let mut counters = Counters::new();
    let key = Value::Str("k".into());
    counters.reset(("c", &key), Some(now + 100), now);
    counters.reset(("c", &key), Some(now + 50), now);
    assert_eq!(Some((0, Some(now + 100))), counters.peek(("c", &key)));
}

#[test]
fn reset_without_gracetime_keeps_a_running_grace() {
    let now: i64 = 1000;
    let mut counters = Counters::new();
    let key = Value::Str("k".into());
    counters.reset(("c", &key), Some(now + 100), now);
    counters.reset(("c", &key), None, now);
    assert_eq!(Some((0, Some(now + 100))), counters.peek(("c", &key)));
}

#[test]
fn set_with_expired_entry_elsewhere_sweeps_it() {
    let now: i64 = 1000;
    let mut counters = Counters::new();
    let key = Value::Str("gone".into());
    counters.set(("c", &key), (2, Some(now + 5)), now);
    let key2 = Value::Str("kept".into());
    counters.set(("c", &key2), (1, None), now + 5);
    assert_eq!(None, counters.peek(("c", &key)));
    assert_eq!(1, counters.len());
}
