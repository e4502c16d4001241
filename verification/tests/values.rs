use pyruse::actions::get_acceptable_key;
use pyruse::actions::remove_acceptable_key;
use pyruse::record::Record;
use pyruse::value::value_eq;
use pyruse::value::Value;

#[test]
fn value_eq_tells_variants_apart() {
    assert!(value_eq(&Value::Bool(true), &Value::Bool(true)));
    assert!(!value_eq(&Value::Bool(true), &Value::Int(1)));
    assert!(!value_eq(&Value::Int(1), &Value::Date(1)));
    assert!(value_eq(&Value::Str("a".into()), &Value::Str("a".into())));
    assert!(!value_eq(&Value::Str("a".into()), &Value::Str("b".into())));
}

#[test]
fn value_eq_goes_deep() {
    let a = Value::List(vec![Value::Int(1), Value::Mapping(vec![("k".into(), Value::Bool(true))])]);
    let b = Value::List(vec![Value::Int(1), Value::Mapping(vec![("k".into(), Value::Bool(true))])]);
    let c = Value::List(vec![Value::Int(1), Value::Mapping(vec![("k".into(), Value::Bool(false))])]);
    assert!(value_eq(&a, &b));
    assert!(!value_eq(&a, &c));
}

#[test]
fn acceptable_keys_render_strings_ints_and_dates() {
    let mut record = Record::new();
    record.insert("s".into(), Value::Str("text".into()));
    record.insert("i".into(), Value::Int(-42));
    record.insert("d".into(), Value::Date(1614263304));
    record.insert("b".into(), Value::Bool(true));
    assert_eq!(Some("text".to_string()), get_acceptable_key(&record, "s"));
    assert_eq!(Some("-42".to_string()), get_acceptable_key(&record, "i"));
    assert_eq!(Some("1614263304".to_string()), get_acceptable_key(&record, "d"));
    assert_eq!(None, get_acceptable_key(&record, "b"));
    assert_eq!(None, get_acceptable_key(&record, "missing"));
}

#[test]
fn remove_acceptable_key_takes_the_entry_out() {
    let mut args = Record::new();
    args.insert("i".into(), Value::Int(7));
    args.insert("b".into(), Value::Bool(true));
    assert_eq!(Some("7".to_string()), remove_acceptable_key(&mut args, "i"));
    assert_eq!(None, args.get("i"));
    assert_eq!(None, remove_acceptable_key(&mut args, "b"));
    assert_eq!(None, args.get("b"));
    assert_eq!(0, args.len());
}

#[test]
fn record_insert_replaces_and_remove_deletes() {
    let mut record = Record::new();
    record.insert("k".into(), Value::Int(1));
    record.insert("k".into(), Value::Int(2));
    assert_eq!(1, record.len());
    assert_eq!(Some(&Value::Int(2)), record.get("k"));
    assert_eq!(Some(Value::Int(2)), record.remove("k"));
    assert_eq!(None, record.get("k"));
    assert_eq!(0, record.len());
}
