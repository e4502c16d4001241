use pyruse::actions::CounterRaise;
use pyruse::actions::CounterReset;
use pyruse::actions::Log;
use pyruse::actions::NetfilterBan;
use pyruse::actions::NfFlavor;
use pyruse::actions::Noop;
use pyruse::counter::Counters;
use pyruse::email::EmailData;
use pyruse::email::EmailPort;
use pyruse::error::Error;
use pyruse::log::LogMessage;
use pyruse::log::LogPort;
use pyruse::modules::Engine;
use pyruse::modules::Module;
use pyruse::netfilter::InMemoryNetfilterStorage;
use pyruse::netfilter::NetfilterBackendPort;
use pyruse::record::Record;
use pyruse::value::Value;
use pyruse::workflow::Chain;
use pyruse::workflow::Config;
use pyruse::workflow::Step;
use pyruse::workflow::Workflow;

struct FakeLog {
    last_write: Option<(u8, String)>,
}

impl LogPort for FakeLog {
    fn read_next(&mut self) -> Result<Record, Error> {
        Err(Error::new("ERROR!".to_string()))
    }

    fn write(&mut self, message: LogMessage) -> Result<(), Error> {
        self.last_write = Some((message.severity(), message.text().to_string()));
        Ok(())
    }
}

struct FakeEmail {
    sent: Vec<EmailData>,
}

impl EmailPort for FakeEmail {
    fn send(&mut self, email: EmailData) -> Result<(), Error> {
        self.sent.push(email);
        Ok(())
    }
}

struct FakeBackend {
    calls: Vec<String>,
}

impl NetfilterBackendPort for FakeBackend {
    fn set_ban(&mut self, nf_set: &str, ip: &str, ban_until: Option<i64>, now: i64) -> Result<(), Error> {
        let t = match ban_until {
            Some(t) => (t - now).to_string(),
            None => "-".to_string(),
        };
        self.calls.push(format!("add {} {} {}", nf_set, ip, t));
        Ok(())
    }

    fn cancel_ban(&mut self, nf_set: &str, ip: &str) -> Result<(), Error> {
        self.calls.push(format!("del {} {}", nf_set, ip));
        Ok(())
    }
}

fn engine() -> Engine<FakeLog, FakeEmail, FakeBackend, InMemoryNetfilterStorage> {
    Engine::new(
        FakeLog { last_write: None },
        FakeEmail { sent: Vec::new() },
        FakeBackend { calls: Vec::new() },
        InMemoryNetfilterStorage::new(),
        FakeBackend { calls: Vec::new() },
        InMemoryNetfilterStorage::new(),
    )
}

fn raise_args(counter: &str, key: &str, save: &str) -> Record {
    let mut args = Record::new();
    args.insert("counter".into(), Value::Str(counter.into()));
    args.insert("for".into(), Value::Str(key.into()));
    args.insert("save".into(), Value::Str(save.into()));
    args
}

#[test]
fn when_non_existing_then_raise_to_1() {
    let now: i64 = 1000;
    let mut counters = Counters::new();
    let action = CounterRaise::from_args(raise_args("test", "k", "raise")).unwrap();
    let mut record = Record::new();
    record.insert("k".into(), Value::Str("raise#1".into()));
    action.act(&mut record, &mut counters, now).unwrap();
    assert_eq!(Some(&Value::Int(1)), record.get("raise"));
}

#[test]
fn when_different_key_then_different_counter() {
    let now: i64 = 1000;
    let mut counters = Counters::new();
    let action = CounterRaise::from_args(raise_args("test", "k", "raise")).unwrap();
    let mut record1 = Record::new();
    record1.insert("k".into(), Value::Str("raise#3".into()));
    let mut record2 = Record::new();
    record2.insert("k".into(), Value::Str("raise#4".into()));
    action.act(&mut record1, &mut counters, now).unwrap();
    assert_eq!(Some(&Value::Int(1)), record1.get("raise"));
    action.act(&mut record2, &mut counters, now).unwrap();
    assert_eq!(Some(&Value::Int(1)), record2.get("raise"));
    action.act(&mut record2, &mut counters, now).unwrap();
    assert_eq!(Some(&Value::Int(2)), record2.get("raise"));
    action.act(&mut record2, &mut counters, now).unwrap();
    assert_eq!(Some(&Value::Int(3)), record2.get("raise"));
    action.act(&mut record1, &mut counters, now).unwrap();
    assert_eq!(Some(&Value::Int(2)), record1.get("raise"));
}

#[test]
fn when_grace_time_then_count_is_0() {
    let now: i64 = 1000;
    let mut counters = Counters::new();
    let action = CounterRaise::from_args(raise_args("test", "k", "raise")).unwrap();
    let mut record = Record::new();
    record.insert("k".into(), Value::Str("raise#5".into()));
    let key = Value::Str("raise#5".into());
    counters.set(("test", &key), (0, Some(now + 1)), now);
    action.act(&mut record, &mut counters, now).unwrap();
    assert_eq!(Some(&Value::Int(0)), record.get("raise"));
    action.act(&mut record, &mut counters, now + 1).unwrap();
    assert_eq!(Some(&Value::Int(1)), record.get("raise"));
}

#[test]
fn counter_raise_without_key_field_fails() {
    let now: i64 = 1000;
    let mut counters = Counters::new();
    let action = CounterRaise::from_args(raise_args("test", "k", "raise")).unwrap();
    let mut record = Record::new();
    let r = action.act(&mut record, &mut counters, now);
    assert_eq!(
        Err(Error { message: "Key k not found in the log entry".to_string() }),
        r,
    );
}

#[test]
fn when_reset_without_gracetime_then_count_is_0_and_counter_removed() {
    let now: i64 = 1000;
    let mut counters = Counters::new();
    let action = CounterReset::from_args(raise_args("test", "k", "reset")).unwrap();
    let mut record = Record::new();
    record.insert("k".into(), Value::Str("reset#1".into()));
    let key = Value::Str("reset#1".into());
    counters.set(("test", &key), (5, None), now);
    action.act(&mut record, &mut counters, now).unwrap();
    assert_eq!(Some(&Value::Int(0)), record.get("reset"));
    assert_eq!(0, counters.len());
}

#[test]
fn when_reset_with_gracetime_then_count_is_0_and_gracetime_is_stored() {
    let now: i64 = 1000;
    let mut counters = Counters::new();
    let mut args = raise_args("test", "k", "reset");
    args.insert("graceSeconds".into(), Value::Int(5));
    let action = CounterReset::from_args(args).unwrap();
    let mut record = Record::new();
    record.insert("k".into(), Value::Str("reset#2".into()));
    action.act(&mut record, &mut counters, now).unwrap();
    assert_eq!(Some(&Value::Int(0)), record.get("reset"));
    let key = Value::Str("reset#2".into());
    assert_eq!(Some((0, Some(now + 5))), counters.peek(("test", &key)));
}

#[test]
fn noop_does_nothing() {
    let action = Noop::from_args(Record::new());
    let mut record = Record::new();
    assert_eq!((), action.act(&mut record).unwrap());
    assert_eq!(0, record.len());
}

#[test]
fn noop_noop_does_nothing() {
    let action = Noop::from_args(Record::new());
    let mut record = Record::new();
    record.insert("a".into(), Value::Int(1));
    assert_eq!((), action.act(&mut record).unwrap());
    assert_eq!(Some(&Value::Int(1)), record.get("a"));
}

fn log_args(template: &str, level: Option<&str>) -> Record {
    let mut args = Record::new();
    args.insert("message".into(), Value::Str(template.to_string()));
    if let Some(l) = level {
        args.insert("level".into(), Value::Str(l.to_string()));
    }
    args
}

#[test]
fn arg_message_is_mandatory() {
    assert!(Log::from_args(Record::new()).is_err());
}

#[test]
fn default_log_level_is_info() {
    let mut logger = FakeLog { last_write: None };
    let log = Log::from_args(log_args("x", None)).unwrap();
    log.act(&mut Record::new(), &mut logger).unwrap();
    assert_eq!(Some((6, "x".to_string())), logger.last_write);
}

#[test]
fn test_levels_are_recognized() {
    let levels: Vec<(&str, u8)> = vec![
        ("EMERG", 0),
        ("ALERT", 1),
        ("CRIT", 2),
        ("ERR", 3),
        ("WARNING", 4),
        ("NOTICE", 5),
        ("INFO", 6),
        ("DEBUG", 7),
    ];
    for (name, sev) in levels {
        let mut logger = FakeLog { last_write: None };
        let log = Log::from_args(log_args("x", Some(name))).unwrap();
        log.act(&mut Record::new(), &mut logger).unwrap();
        assert_eq!(Some((sev, "x".to_string())), logger.last_write);
    }
}

#[test]
fn unknown_log_level_falls_back_to_info() {
    let mut logger = FakeLog { last_write: None };
    let log = Log::from_args(log_args("x", Some("LOUD"))).unwrap();
    log.act(&mut Record::new(), &mut logger).unwrap();
    assert_eq!(Some((6, "x".to_string())), logger.last_write);
}

#[test]
fn log_template_without_placeholder_is_rendered_as_is() {
    let mut logger = FakeLog { last_write: None };
    let log = Log::from_args(log_args("x", None)).unwrap();
    log.act(&mut Record::new(), &mut logger).unwrap();
    assert_eq!(Some((6, "x".to_string())), logger.last_write);
}

#[test]
fn log_placeholder_without_variable_is_rendered_as_is() {
    let mut logger = FakeLog { last_write: None };
    let log = Log::from_args(log_args("x{y}z", None)).unwrap();
    log.act(&mut Record::new(), &mut logger).unwrap();
    assert_eq!(Some((6, "x{y}z".to_string())), logger.last_write);
}

#[test]
fn log_placeholder_with_variable_is_replaced() {
    let mut logger = FakeLog { last_write: None };
    let log = Log::from_args(log_args("x{y}z", None)).unwrap();
    let mut record = Record::new();
    record.insert("y".into(), Value::Str("y".into()));
    log.act(&mut record, &mut logger).unwrap();
    assert_eq!(Some((6, "xyz".to_string())), logger.last_write);
}

#[test]
fn log_all_variables_are_replaced() {
    let mut logger = FakeLog { last_write: None };
    let log = Log::from_args(log_args("{x}{a}{yy}-{zzz}", None)).unwrap();
    let mut record = Record::new();
    record.insert("x".into(), Value::Str("x".into()));
    record.insert("yy".into(), Value::Str("y".into()));
    record.insert("zzz".into(), Value::Str("z".into()));
    log.act(&mut record, &mut logger).unwrap();
    assert_eq!(Some((6, "x{a}y-z".to_string())), logger.last_write);
}

#[test]
fn available_action_can_be_generated_and_run() {
    let now: i64 = 1000;
    let mut eng = engine();
    let module = Module::new("action_noop", Record::new()).unwrap();
    let mut record = Record::new();
    assert_eq!(Ok(true), module.run(&mut record, &mut eng, now));
}

#[test]
fn available_filter_can_be_generated_and_run() {
    let now: i64 = 1000;
    let mut eng = engine();
    let mut args = Record::new();
    args.insert("field".into(), Value::Str("f".into()));
    args.insert("value".into(), Value::Int(1));
    let module = Module::new("filter_equals", args).unwrap();
    let mut record = Record::new();
    assert_eq!(Ok(false), module.run(&mut record, &mut eng, now));
}

#[test]
fn action_noop_is_available() {
    assert!(Module::new("action_noop", Record::new()).is_ok());
}

#[test]
fn filter_equals_is_available() {
    let mut args = Record::new();
    args.insert("field".into(), Value::Str("a_field".into()));
    args.insert("value".into(), Value::Int(1));
    assert!(Module::new("filter_equals", args).is_ok());
}

#[test]
fn unknown_module_is_rejected() {
    let r = Module::new("action_unheard_of", Record::new());
    assert_eq!(
        Err(Error { message: "Module action_unheard_of does not exist".to_string() }),
        r.map(|_| ()),
    );
}

fn step(module: &str, args: Record, then_dest: Option<&str>, else_dest: Option<&str>) -> Step {
    Step {
        module: module.to_string(),
        args,
        then_dest: then_dest.map(|s| s.to_string()),
        else_dest: else_dest.map(|s| s.to_string()),
    }
}

fn equals_args(field: &str, value: Value) -> Record {
    let mut args = Record::new();
    args.insert("field".into(), Value::Str(field.to_string()));
    args.insert("value".into(), value);
    args
}

#[test]
fn config_with_one_module_is_ok() {
    let now: i64 = 1000;
    let mut actions: Vec<(String, Chain)> = Vec::new();
    actions.push((
        "chain1".to_string(),
        vec![step("action_counterRaise", raise_args("c", "k", "fake_action"), None, None)],
    ));
    let conf = Config { actions, options: Record::new() };
    let wf = Workflow::build(conf).unwrap();
    let mut eng = engine();
    let mut record = Record::new();
    record.insert("k".into(), Value::Str("v".into()));
    wf.run(&mut record, &mut eng, now);
    assert!(wf.node_count() == 1);
    assert!(wf.node_name(0) == "chain1[0]:action_counterRaise");
    assert!(wf.node_then(0).is_none());
    assert!(wf.node_else(0).is_none());
    assert!(record.get("fake_action") == Some(&Value::Int(1)));
}

#[test]
fn explicit_chain_to_chain_link_works() {
    let now: i64 = 1000;
    let mut actions: Vec<(String, Chain)> = Vec::new();
    actions.push((
        "chain1".to_string(),
        vec![step("filter_equals", equals_args("k", Value::Str("v".into())), None, Some("chain2"))],
    ));
    actions.push((
        "chain2".to_string(),
        vec![step("action_counterRaise", raise_args("c", "k", "fake_action"), None, None)],
    ));
    let conf = Config { actions, options: Record::new() };
    let wf = Workflow::build(conf).unwrap();
    let mut eng = engine();
    let mut record = Record::new();
    record.insert("k".into(), Value::Str("x".into()));
    wf.run(&mut record, &mut eng, now);
    assert!(wf.node_count() == 2);
    assert!(wf.node_name(0) == "chain1[0]:filter_equals");
    assert!(wf.node_name(1) == "chain2[0]:action_counterRaise");
    assert!(wf.node_then(0).is_none());
    assert!(wf.node_else(0) == Some(1));
    assert!(wf.node_then(1).is_none());
    assert!(wf.node_else(1).is_none());
    assert!(record.get("fake_action") == Some(&Value::Int(1)));
}

#[test]
fn implicit_chain_to_chain_link_works() {
    let now: i64 = 1000;
    let mut actions: Vec<(String, Chain)> = Vec::new();
    actions.push((
        "chain1".to_string(),
        vec![step("filter_equals", equals_args("k", Value::Str("v".into())), None, None)],
    ));
    actions.push((
        "chain2".to_string(),
        vec![step("action_counterRaise", raise_args("c", "k", "fake_action"), None, None)],
    ));
    let conf = Config { actions, options: Record::new() };
    let wf = Workflow::build(conf).unwrap();
    let mut eng = engine();
    let mut record = Record::new();
    record.insert("k".into(), Value::Str("x".into()));
    wf.run(&mut record, &mut eng, now);
    assert!(wf.node_count() == 2);
    assert!(wf.node_name(0) == "chain1[0]:filter_equals");
    assert!(wf.node_name(1) == "chain2[0]:action_counterRaise");
    assert!(wf.node_then(0).is_none());
    assert!(wf.node_else(0) == Some(1));
    assert!(wf.node_then(1).is_none());
    assert!(wf.node_else(1).is_none());
    assert!(record.get("fake_action") == Some(&Value::Int(1)));
}

#[test]
fn empty_config_is_rejected() {
    let conf = Config { actions: Vec::new(), options: Record::new() };
    assert!(Workflow::build(conf).is_err());
}

#[test]
fn unknown_chain_reference_is_rejected() {
    let mut actions: Vec<(String, Chain)> = Vec::new();
    actions.push((
        "chain1".to_string(),
        vec![step("action_noop", Record::new(), Some("nowhere"), None)],
    ));
    let conf = Config { actions, options: Record::new() };
    assert!(Workflow::build(conf).is_err());
}

#[test]
fn configuration_loop_is_rejected() {
    let mut actions: Vec<(String, Chain)> = Vec::new();
    actions.push((
        "A".to_string(),
        vec![step("action_noop", Record::new(), Some("B"), None)],
    ));
    actions.push((
        "B".to_string(),
        vec![step("action_noop", Record::new(), Some("A"), None)],
    ));
    let conf = Config { actions, options: Record::new() };
    assert!(Workflow::build(conf).is_err());
}

#[test]
fn scenario_filter_then_action() {
    let now: i64 = 1000;
    let build = || {
        let mut actions: Vec<(String, Chain)> = Vec::new();
        actions.push((
            "A".to_string(),
            vec![step("filter_equals", equals_args("k", Value::Str("v".into())), None, None)],
        ));
        actions.push((
            "B".to_string(),
            vec![step("action_counterRaise", raise_args("c", "k", "n"), None, None)],
        ));
        Workflow::build(Config { actions, options: Record::new() }).unwrap()
    };
    let wf = build();
    let mut eng = engine();
    let mut matching = Record::new();
    matching.insert("k".into(), Value::Str("v".into()));
    wf.run(&mut matching, &mut eng, now);
    assert_eq!(Some(&Value::Str("v".into())), matching.get("k"));
    assert_eq!(None, matching.get("n"));
    let mut other = Record::new();
    other.insert("k".into(), Value::Str("x".into()));
    wf.run(&mut other, &mut eng, now);
    assert_eq!(Some(&Value::Int(1)), other.get("n"));
}

#[test]
fn scenario_counter_raise_writes_save_field() {
    let now: i64 = 1000;
    let mut counters = Counters::new();
    let action = CounterRaise::from_args(raise_args("c", "k", "n")).unwrap();
    let mut record = Record::new();
    record.insert("k".into(), Value::Str("abc".into()));
    action.act(&mut record, &mut counters, now).unwrap();
    assert_eq!(Some(&Value::Int(1)), record.get("n"));
    let key = Value::Str("abc".into());
    assert_eq!(Some((1, None)), counters.peek(("c", &key)));
    action.act(&mut record, &mut counters, now).unwrap();
    assert_eq!(Some(&Value::Int(2)), record.get("n"));
}

#[test]
fn scenario_counter_in_grace_blocks_augment() {
    let now: i64 = 1000;
    let mut counters = Counters::new();
    let key = Value::Str("abc".into());
    counters.set(("c", &key), (0, Some(now + 10)), now);
    let action = CounterRaise::from_args(raise_args("c", "k", "n")).unwrap();
    let mut record = Record::new();
    record.insert("k".into(), Value::Str("abc".into()));
    action.act(&mut record, &mut counters, now).unwrap();
    assert_eq!(Some(&Value::Int(0)), record.get("n"));
    assert_eq!(Some((0, Some(now + 10))), counters.peek(("c", &key)));
    action.act(&mut record, &mut counters, now + 10).unwrap();
    assert_eq!(Some(&Value::Int(1)), record.get("n"));
    assert_eq!(Some((1, None)), counters.peek(("c", &key)));
}

#[test]
fn scenario_log_template_substitution() {
    let mut logger = FakeLog { last_write: None };
    let log = Log::from_args(log_args("IP {ip} did {act}", None)).unwrap();
    let mut record = Record::new();
    record.insert("ip".into(), Value::Str("1.2.3.4".into()));
    record.insert("act".into(), Value::Str("foo".into()));
    log.act(&mut record, &mut logger).unwrap();
    assert_eq!(Some((6, "IP 1.2.3.4 did foo".to_string())), logger.last_write);
    let mut partial = Record::new();
    partial.insert("act".into(), Value::Str("foo".into()));
    log.act(&mut partial, &mut logger).unwrap();
    assert_eq!(Some((6, "IP {ip} did foo".to_string())), logger.last_write);
}

#[test]
fn scenario_ban_reconciliation() {
    let now: i64 = 1000;
    let mut backend = FakeBackend { calls: Vec::new() };
    let mut storage = InMemoryNetfilterStorage::new();
    storage.push(pyruse::netfilter::Ban {
        ip: "A".to_string(),
        nf_set: "S".to_string(),
        ban_until: Some(now - 10),
    });
    let mut args = Record::new();
    args.insert("nftSetIPv4".into(), Value::Str("S".into()));
    args.insert("nftSetIPv6".into(), Value::Str("S6".into()));
    args.insert("IP".into(), Value::Str("ip".into()));
    args.insert("banSeconds".into(), Value::Int(60));
    let action = NetfilterBan::from_args(
        args,
        "action_nftBan",
        "nftSetIPv4",
        "nftSetIPv6",
        NfFlavor::Nft,
    ).unwrap();
    let mut record = Record::new();
    record.insert("ip".into(), Value::Str("B".into()));
    action.act(&mut record, &mut backend, &mut storage, now).unwrap();
    assert_eq!(1, storage.len());
    assert_eq!("B", storage.at(0).ip.as_str());
    assert_eq!("S", storage.at(0).nf_set.as_str());
    assert_eq!(Some(now + 60), storage.at(0).ban_until);
    assert_eq!(vec!["add S B 60".to_string()], backend.calls);
    action.act(&mut record, &mut backend, &mut storage, now).unwrap();
    assert_eq!(1, storage.len());
    assert_eq!(
        vec![
            "add S B 60".to_string(),
            "del S B".to_string(),
            "add S B 60".to_string(),
        ],
        backend.calls,
    );
}

#[test]
fn ban_skips_a_record_without_the_address_field() {
    let now: i64 = 1000;
    let mut backend = FakeBackend { calls: Vec::new() };
    let mut storage = InMemoryNetfilterStorage::new();
    let mut args = Record::new();
    args.insert("ipSetIPv4".into(), Value::Str("S4".into()));
    args.insert("ipSetIPv6".into(), Value::Str("S6".into()));
    args.insert("IP".into(), Value::Str("ip".into()));
    let action = NetfilterBan::from_args(
        args,
        "action_ipsetBan",
        "ipSetIPv4",
        "ipSetIPv6",
        NfFlavor::Ipset,
    ).unwrap();
    let mut record = Record::new();
    action.act(&mut record, &mut backend, &mut storage, now).unwrap();
    assert_eq!(0, storage.len());
    assert!(backend.calls.is_empty());
}

#[test]
fn ban_picks_the_ipv6_set_on_a_colon() {
    let now: i64 = 1000;
    let mut backend = FakeBackend { calls: Vec::new() };
    let mut storage = InMemoryNetfilterStorage::new();
    let mut args = Record::new();
    args.insert("ipSetIPv4".into(), Value::Str("S4".into()));
    args.insert("ipSetIPv6".into(), Value::Str("S6".into()));
    args.insert("IP".into(), Value::Str("ip".into()));
    let action = NetfilterBan::from_args(
        args,
        "action_ipsetBan",
        "ipSetIPv4",
        "ipSetIPv6",
        NfFlavor::Ipset,
    ).unwrap();
    let mut record = Record::new();
    record.insert("ip".into(), Value::Str("fe80::1".into()));
    action.act(&mut record, &mut backend, &mut storage, now).unwrap();
    assert_eq!(vec!["add S6 fe80::1 -".to_string()], backend.calls);
}
