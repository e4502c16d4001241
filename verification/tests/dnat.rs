use pyruse::actions::DnatCapture;
use pyruse::actions::DnatReplace;
use pyruse::dnat::DnatMapping;
use pyruse::dnat::InMemoryDnatMappingsAdapter;
use pyruse::record::Record;
use pyruse::value::Value;

fn as_args(data: Vec<(&str, &str)>) -> Record {
    let mut args = Record::new();
    for (f, v) in data {
        args.insert(f.to_string(), Value::Str(v.to_string()));
    }
    args
}

#[test]
fn keep_until_is_taken_into_account() {
    let already_past: i64 = 1000;
    let mut mappings = InMemoryDnatMappingsAdapter::new();
    let mapping = DnatMapping {
        src_addr: None,
        src_port: None,
        internal_addr: None,
        internal_port: None,
        dest_addr: None,
        dest_port: None,
        keep_until: already_past,
    };
    mappings.put(mapping, already_past);
    assert_eq!(Vec::<DnatMapping>::new(), mappings.get_all(already_past));
}

#[test]
fn dnat_capture_needs_a_source_address_field() {
    let args = as_args(vec![("addr", "int_ip")]);
    assert!(DnatCapture::from_args(args).is_err());
}

#[test]
fn dnat_capture_needs_an_internal_address_field_or_value() {
    let args = as_args(vec![("saddr", "src_ip")]);
    assert!(DnatCapture::from_args(args).is_err());
}

#[test]
fn when_no_addr_but_addr_value_then_no_error() {
    let args = as_args(vec![("saddr", "src_ip"), ("addrValue", "1.2.3.4")]);
    assert!(DnatCapture::from_args(args).is_ok());
}

#[test]
fn when_no_addr_value_but_addr_then_no_error() {
    let args = as_args(vec![("saddr", "src_ip"), ("addr", "int_ip")]);
    assert!(DnatCapture::from_args(args).is_ok());
}

#[test]
fn when_no_keep_seconds_then_63sec() {
    let now: i64 = 1000;
    let args = as_args(vec![("saddr", "sa"), ("addr", "a")]);
    let action = DnatCapture::from_args(args).unwrap();
    let mut mappings = InMemoryDnatMappingsAdapter::new();
    let mut record = Record::new();
    record.insert("sa".into(), Value::Str("vsa".into()));
    record.insert("a".into(), Value::Str("va".into()));
    action.act(&mut record, &mut mappings, now).unwrap();
    let all = mappings.get_all(now);
    assert_eq!(1, all.len());
    assert_eq!(now + 63, all[0].keep_until);
}

#[test]
fn when_insufficient_entry_then_no_mapping() {
    let now: i64 = 1000;
    let args = as_args(vec![("saddr", "src_ip"), ("addr", "int_ip")]);
    let action = DnatCapture::from_args(args).unwrap();
    let mut mappings = InMemoryDnatMappingsAdapter::new();
    let mut record = Record::new();
    action.act(&mut record, &mut mappings, now).unwrap();
    assert_eq!(0, mappings.len());
}

fn when_field_and_or_value_then_check_mapping(
    mut args: Record,
    entry_with_addr: bool,
    entry_with_daddr: bool,
    expect: DnatMapping,
) {
    let now: i64 = 1000;
    let mut mappings = InMemoryDnatMappingsAdapter::new();
    args.insert("saddr".into(), Value::Str("sa".into()));
    let mut entry = Record::new();
    entry.insert("sa".into(), Value::Str("vsa".into()));
    entry.insert("sp".into(), Value::Str("vsp".into()));
    if entry_with_addr {
        entry.insert("a".into(), Value::Str("va".into()));
        entry.insert("p".into(), Value::Str("vp".into()));
    }
    if entry_with_daddr {
        entry.insert("da".into(), Value::Str("vda".into()));
        entry.insert("dp".into(), Value::Str("vdp".into()));
    }
    let action = DnatCapture::from_args(args).unwrap();
    action.act(&mut entry, &mut mappings, now).unwrap();
    let all = mappings.get_all(now);
    assert_eq!(1, all.len());
    assert_eq!(expect, all[all.len() - 1]);
}

fn test_dnat_mapping(
    src_port: Option<&str>,
    internal_addr: Option<&str>,
    internal_port: Option<&str>,
    dest_addr: Option<&str>,
    dest_port: Option<&str>,
) -> DnatMapping {
    DnatMapping {
        src_addr: Some("vsa".into()),
        src_port: src_port.map(|s| s.to_string()),
        internal_addr: internal_addr.map(|s| s.to_string()),
        internal_port: internal_port.map(|s| s.to_string()),
        dest_addr: dest_addr.map(|s| s.to_string()),
        dest_port: dest_port.map(|s| s.to_string()),
        keep_until: 1063,
    }
}

#[test]
fn when_sufficient_record_a_mapping_is_stored() {
    when_field_and_or_value_then_check_mapping(
        as_args(vec![("addr", "a")]),
        true,
        true,
        test_dnat_mapping(None, Some("va"), None, None, None),
    );
    when_field_and_or_value_then_check_mapping(
        as_args(vec![("addrValue", "x")]),
        true,
        true,
        test_dnat_mapping(None, Some("x"), None, None, None),
    );
    when_field_and_or_value_then_check_mapping(
        as_args(vec![("addr", "a"), ("addrValue", "x")]),
        true,
        true,
        test_dnat_mapping(None, Some("va"), None, None, None),
    );
    when_field_and_or_value_then_check_mapping(
        as_args(vec![("addr", "a"), ("addrValue", "x")]),
        false,
        true,
        test_dnat_mapping(None, Some("x"), None, None, None),
    );
    when_field_and_or_value_then_check_mapping(
        as_args(vec![("addr", "a"), ("daddr", "da")]),
        true,
        true,
        test_dnat_mapping(None, Some("va"), None, Some("vda"), None),
    );
    when_field_and_or_value_then_check_mapping(
        as_args(vec![("addr", "a"), ("daddrValue", "x")]),
        true,
        true,
        test_dnat_mapping(None, Some("va"), None, Some("x"), None),
    );
    when_field_and_or_value_then_check_mapping(
        as_args(vec![("addr", "a"), ("daddr", "da"), ("daddrValue", "x")]),
        true,
        true,
        test_dnat_mapping(None, Some("va"), None, Some("vda"), None),
    );
    when_field_and_or_value_then_check_mapping(
        as_args(vec![("addr", "a"), ("daddr", "da"), ("daddrValue", "x")]),
        true,
        false,
        test_dnat_mapping(None, Some("va"), None, Some("x"), None),
    );
    when_field_and_or_value_then_check_mapping(
        as_args(vec![("addr", "a"), ("port", "p")]),
        true,
        true,
        test_dnat_mapping(None, Some("va"), Some("vp"), None, None),
    );
    when_field_and_or_value_then_check_mapping(
        as_args(vec![("addr", "a"), ("dport", "dp")]),
        true,
        true,
        test_dnat_mapping(None, Some("va"), None, None, Some("vdp")),
    );
}

fn sample_dnat_mapping(now: i64) -> DnatMapping {
    DnatMapping {
        src_addr: Some("bad".into()),
        src_port: None,
        internal_addr: Some("prox".into()),
        internal_port: Some("12345".into()),
        dest_addr: Some("serv".into()),
        dest_port: None,
        keep_until: now + 3600,
    }
}

#[test]
fn dnat_replace_needs_a_field_to_replace() {
    let args = as_args(vec![("addr", "int_ip")]);
    assert!(DnatReplace::from_args(args).is_err());
}

#[test]
fn dnat_replace_needs_a_match_field() {
    let args = as_args(vec![("saddrInto", "src_ip")]);
    assert!(DnatReplace::from_args(args).is_err());
}

#[test]
fn when_saddrinto_and_at_least_one_match_field_then_no_error() {
    let mut args = Record::new();
    args.insert("saddrInto".into(), Value::Str("src_ip".into()));
    args.insert("dport".into(), Value::Int(1234));
    assert!(DnatReplace::from_args(args).is_ok());
}

#[test]
fn when_no_matching_entry_then_no_change() {
    let now: i64 = 1000;
    let mut mappings = InMemoryDnatMappingsAdapter::new();
    mappings.put(sample_dnat_mapping(now), now);
    let args = as_args(vec![("saddrInto", "src_ip"), ("port", "src_port")]);
    let action = DnatReplace::from_args(args).unwrap();
    let mut record = Record::new();
    record.insert("src_ip".into(), Value::Str("prox".into()));
    record.insert("dest_ip".into(), Value::Str("serv".into()));
    action.act(&mut record, &mut mappings, now).unwrap();
    assert_eq!(2, record.len());
    assert_eq!(Some(&Value::Str("prox".into())), record.get("src_ip"));
    assert_eq!(Some(&Value::Str("serv".into())), record.get("dest_ip"));
}

#[test]
fn when_no_matching_value_then_no_change() {
    let now: i64 = 1000;
    let mut mappings = InMemoryDnatMappingsAdapter::new();
    mappings.put(sample_dnat_mapping(now), now);
    let args = as_args(vec![("saddrInto", "src_ip"), ("port", "src_port")]);
    let action = DnatReplace::from_args(args).unwrap();
    let mut record = Record::new();
    record.insert("src_ip".into(), Value::Str("prox".into()));
    record.insert("src_port".into(), Value::Str("1234".into()));
    record.insert("dest_ip".into(), Value::Str("serv".into()));
    action.act(&mut record, &mut mappings, now).unwrap();
    assert_eq!(3, record.len());
    assert_eq!(Some(&Value::Str("prox".into())), record.get("src_ip"));
    assert_eq!(Some(&Value::Str("1234".into())), record.get("src_port"));
    assert_eq!(Some(&Value::Str("serv".into())), record.get("dest_ip"));
}

#[test]
fn when_matching_entry_then_change() {
    let now: i64 = 1000;
    let mut mappings = InMemoryDnatMappingsAdapter::new();
    mappings.put(sample_dnat_mapping(now), now);
    let args = as_args(vec![("saddrInto", "src_ip"), ("port", "src_port")]);
    let action = DnatReplace::from_args(args).unwrap();
    let mut record = Record::new();
    record.insert("src_ip".into(), Value::Str("prox".into()));
    record.insert("src_port".into(), Value::Int(12345));
    record.insert("dest_ip".into(), Value::Str("serv".into()));
    action.act(&mut record, &mut mappings, now).unwrap();
    assert_eq!(3, record.len());
    assert_eq!(Some(&Value::Str("bad".into())), record.get("src_ip"));
    assert_eq!(Some(&Value::Int(12345)), record.get("src_port"));
    assert_eq!(Some(&Value::Str("serv".into())), record.get("dest_ip"));
}

#[test]
fn scenario_dnat_capture_then_replace() {
    let now: i64 = 1000;
    let mut mappings = InMemoryDnatMappingsAdapter::new();
    let capture = DnatCapture::from_args(as_args(vec![("saddr", "sa"), ("addr", "a")])).unwrap();
    let mut r1 = Record::new();
    r1.insert("sa".into(), Value::Str("1.1.1.1".into()));
    r1.insert("a".into(), Value::Str("10.0.0.1".into()));
    capture.act(&mut r1, &mut mappings, now).unwrap();
    assert_eq!(1, mappings.len());
    let replace = DnatReplace::from_args(as_args(vec![("addr", "a"), ("saddrInto", "src_ip")]))
        .unwrap();
    let mut r2 = Record::new();
    r2.insert("sa".into(), Value::Str("ignored".into()));
    r2.insert("a".into(), Value::Str("10.0.0.1".into()));
    replace.act(&mut r2, &mut mappings, now).unwrap();
    assert_eq!(Some(&Value::Str("1.1.1.1".into())), r2.get("src_ip"));
}

#[test]
fn first_matching_mapping_wins() {
    let now: i64 = 1000;
    let mut mappings = InMemoryDnatMappingsAdapter::new();
    let mut first = sample_dnat_mapping(now);
    first.src_addr = Some("first".into());
    let mut second = sample_dnat_mapping(now);
    second.src_addr = Some("second".into());
    mappings.put(first, now);
    mappings.put(second, now);
    let args = as_args(vec![("saddrInto", "src_ip"), ("addr", "ia")]);
    let action = DnatReplace::from_args(args).unwrap();
    let mut record = Record::new();
    record.insert("ia".into(), Value::Str("prox".into()));
    action.act(&mut record, &mut mappings, now).unwrap();
    assert_eq!(Some(&Value::Str("first".into())), record.get("src_ip"));
}
