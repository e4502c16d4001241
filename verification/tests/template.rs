use pyruse::record::Record;
use pyruse::template::Template;
use pyruse::value::Value;

#[test]
fn template_template_without_placeholder_is_rendered_as_is() {
    let template = Template::new("x".into());
    let result = template.format(&Record::new());
    assert_eq!("x", &result);
}

#[test]
fn template_placeholder_without_variable_is_rendered_as_is() {
    let template = Template::new("x{y}z".into());
    let result = template.format(&Record::new());
    assert_eq!("x{y}z", &result);
}

#[test]
fn template_placeholder_with_variable_is_replaced() {
    let template = Template::new("x{y}z".into());
    let mut record = Record::new();
    record.insert("y".into(), Value::Str("y".into()));
    let result = template.format(&record);
    assert_eq!("xyz", &result);
}

#[test]
fn template_all_variables_are_replaced() {
    let template = Template::new("{x}{a}{yy}-{zzz}".into());
    let mut record = Record::new();
    record.insert("x".into(), Value::Str("x".into()));
    record.insert("yy".into(), Value::Str("y".into()));
    record.insert("zzz".into(), Value::Str("z".into()));
    let result = template.format(&record);
    assert_eq!("x{a}y-z", &result);
}

#[test]
fn template_non_string_value_keeps_the_placeholder() {
    let template = Template::new("n={n}".into());
    let mut record = Record::new();
    record.insert("n".into(), Value::Int(4));
    let result = template.format(&record);
    assert_eq!("n={n}", &result);
}

#[test]
fn template_unterminated_placeholder_is_literal() {
    let template = Template::new("a{bc".into());
    let mut record = Record::new();
    record.insert("bc".into(), Value::Str("x".into()));
    let result = template.format(&record);
    assert_eq!("a{bc", &result);
}

#[test]
fn template_empty_braces_are_literal() {
    let template = Template::new("a{}b".into());
    let result = template.format(&Record::new());
    assert_eq!("a{}b", &result);
}

#[test]
fn template_brace_then_placeholder_is_found() {
    let template = Template::new("{a{b}".into());
    let mut record = Record::new();
    record.insert("b".into(), Value::Str("B".into()));
    let result = template.format(&record);
    assert_eq!("{aB", &result);
}
