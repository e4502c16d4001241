use pyruse::filters::Equals;
use pyruse::record::Record;
use pyruse::value::Value;

fn generate_args_record_equal(name: String, value: Value) -> (Record, Record) {
    let mut args = Record::new();
    args.insert(String::from("field"), Value::Str(name.clone()));
    args.insert(String::from("value"), value.clone());
    let mut record = Record::new();
    record.insert(name, value);
    (args, record)
}

fn generate_args_record_custom(
    ref_name: String,
    ref_value: Value,
    test_name: String,
    test_value: Value,
) -> (Record, Record) {
    let mut args = Record::new();
    args.insert(String::from("field"), Value::Str(ref_name));
    args.insert(String::from("value"), ref_value);
    let mut record = Record::new();
    record.insert(test_name, test_value);
    (args, record)
}

#[test]
fn filter_equals_returns_true_for_identical_bools() {
    let (args, mut record) = generate_args_record_equal(String::from("a_boolean"), Value::Bool(false));
    let filter = Equals::from_args(args).unwrap();
    assert!(filter.filter(&mut record));
}

#[test]
fn filter_equals_returns_true_for_identical_strings() {
    let (args, mut record) =
        generate_args_record_equal(String::from("a_string"), Value::Str(String::from("Hello!")));
    let filter = Equals::from_args(args).unwrap();
    assert!(filter.filter(&mut record));
}

#[test]
fn filter_equals_returns_true_for_identical_ints() {
    let (args, mut record) = generate_args_record_equal(String::from("an_int"), Value::Int(2));
    let filter = Equals::from_args(args).unwrap();
    assert!(filter.filter(&mut record));
}

#[test]
fn filter_equals_returns_true_for_identical_dates() {
    let now: i64 = 1617864646;
    let (args, mut record) = generate_args_record_equal(String::from("a_date"), Value::Date(now));
    let filter = Equals::from_args(args).unwrap();
    assert!(filter.filter(&mut record));
}

#[test]
fn filter_equals_returns_false_for_different_bools() {
    let (args, mut record) = generate_args_record_custom(
        String::from("a_boolean"),
        Value::Bool(false),
        String::from("a_boolean"),
        Value::Bool(true),
    );
    let filter = Equals::from_args(args).unwrap();
    assert!(!filter.filter(&mut record));
}

#[test]
fn filter_equals_returns_false_for_different_strings() {
    let (args, mut record) = generate_args_record_custom(
        String::from("a_string"),
        Value::Str(String::from("Hello!")),
        String::from("a_string"),
        Value::Str(String::from("World!")),
    );
    let filter = Equals::from_args(args).unwrap();
    assert!(!filter.filter(&mut record));
}

#[test]
fn filter_equals_returns_false_for_different_ints() {
    let (args, mut record) = generate_args_record_custom(
        String::from("an_int"),
        Value::Int(2),
        String::from("an_int"),
        Value::Int(3),
    );
    let filter = Equals::from_args(args).unwrap();
    assert!(!filter.filter(&mut record));
}

#[test]
fn filter_equals_returns_false_for_different_dates() {
    let now: i64 = 1617864646;
    let (args, mut record) = generate_args_record_custom(
        String::from("a_date"),
        Value::Date(now),
        String::from("a_date"),
        Value::Date(now + 1),
    );
    let filter = Equals::from_args(args).unwrap();
    assert!(!filter.filter(&mut record));
}

#[test]
fn filter_equals_returns_false_for_non_matching_keys() {
    let (args, mut record) = generate_args_record_custom(
        String::from("a_key"),
        Value::Int(2),
        String::from("another_key"),
        Value::Int(2),
    );
    let filter = Equals::from_args(args).unwrap();
    assert!(!filter.filter(&mut record));
}

#[test]
fn filter_equals_compares_lists_and_maps_structurally() {
    let list = Value::List(vec![Value::Int(1), Value::Str("a".into())]);
    let (args, mut record) = generate_args_record_equal(String::from("l"), list);
    let filter = Equals::from_args(args).unwrap();
    assert!(filter.filter(&mut record));
    let map1 = Value::Mapping(vec![("k".to_string(), Value::Int(1))]);
    let map2 = Value::Mapping(vec![("k".to_string(), Value::Int(2))]);
    let (args2, mut record2) = generate_args_record_custom(
        String::from("m"),
        map1,
        String::from("m"),
        map2,
    );
    let filter2 = Equals::from_args(args2).unwrap();
    assert!(!filter2.filter(&mut record2));
}

#[test]
fn filter_equals_needs_a_field() {
    let mut args = Record::new();
    args.insert(String::from("value"), Value::Int(1));
    assert!(Equals::from_args(args).is_err());
}

#[test]
fn filter_equals_needs_a_value() {
    let mut args = Record::new();
    args.insert(String::from("field"), Value::Str("f".into()));
    assert!(Equals::from_args(args).is_err());
}

#[test]
fn filter_equals_should_return_true() {
    let (args, mut record) = generate_args_record_equal("a_boolean".into(), Value::Bool(false));
    let filter = Equals::from_args(args).unwrap();
    assert!(filter.filter(&mut record));

    let (args, mut record) =
        generate_args_record_equal("a_string".into(), Value::Str(String::from("Hello!")));
    let filter = Equals::from_args(args).unwrap();
    assert!(filter.filter(&mut record));

    let (args, mut record) = generate_args_record_equal("an_integer".into(), Value::Int(2));
    let filter = Equals::from_args(args).unwrap();
    assert!(filter.filter(&mut record));

    let (args, mut record) =
        generate_args_record_equal("a_date".into(), Value::Date(1617864646));
    let filter = Equals::from_args(args).unwrap();
    assert!(filter.filter(&mut record));
}

#[test]
fn filter_equals_should_return_false() {
    let (args, mut record) = generate_args_record_custom(
        "a_boolean".into(),
        Value::Bool(true),
        "a_boolean".into(),
        Value::Bool(false),
    );
    let filter = Equals::from_args(args).unwrap();
    assert!(!filter.filter(&mut record));

    let (args, mut record) = generate_args_record_custom(
        "a_string".into(),
        Value::Str(String::from("Hello!")),
        "a_string".into(),
        Value::Str(String::from("World!")),
    );
    let filter = Equals::from_args(args).unwrap();
    assert!(!filter.filter(&mut record));

    let (args, mut record) = generate_args_record_custom(
        "an_integer".into(),
        Value::Int(2),
        "an_integer".into(),
        Value::Int(3),
    );
    let filter = Equals::from_args(args).unwrap();
    assert!(!filter.filter(&mut record));

    let (args, mut record) = generate_args_record_custom(
        "a_date".into(),
        Value::Date(1617864646),
        "a_date".into(),
        Value::Date(1617864647),
    );
    let filter = Equals::from_args(args).unwrap();
    assert!(!filter.filter(&mut record));

    let (args, mut record) = generate_args_record_custom(
        "first_one".into(),
        Value::Int(1),
        "second_one".into(),
        Value::Int(1),
    );
    let filter = Equals::from_args(args).unwrap();
    assert!(!filter.filter(&mut record));
}
