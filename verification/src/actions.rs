use crate::counter::spec_augment;
use crate::counter::spec_reset;
use crate::counter::Counters;
use crate::email::EmailData;
use crate::email::EmailPort;
use crate::error::Error;
use crate::log::LogMessage;
use crate::log::LogPort;
use crate::record::ModuleArgs;
use crate::record::Record;
use crate::template::Template;
use crate::text::i64_to_dec;
use crate::text::int_str;
use crate::text::str_eq;
use crate::value::Value;
use crate::value::ValueView;
use vstd::prelude::*;

verus! {

/// The text form a value may take as a counter key or an address field:
/// strings stand as they are, integers and timestamps in decimal; other
/// shapes have none.
pub open spec fn acceptable_key(v: ValueView) -> Option<Seq<char>> {
    match v {
        ValueView::Str(s) => Some(s),
        ValueView::Int(i) => Some(int_str(i)),
        ValueView::Date(d) => Some(int_str(d)),
        _ => None,
    }
}

/// The text form of a record's field, when the field exists and has one.
pub open spec fn spec_acceptable_key(r: Map<Seq<char>, ValueView>, key: Seq<char>) -> Option<
    Seq<char>,
> {
    if r.contains_key(key) {
        acceptable_key(r[key])
    } else {
        None
    }
}

/// Reads a field in its text form.
pub fn get_acceptable_key(record: &Record, key: &str) -> (r: Option<String>)
    requires
        record.wf(),
    ensures
        match r {
            Some(s) => spec_acceptable_key(record@, key@) == Some(s@),
            None => spec_acceptable_key(record@, key@) is None,
        },
{
    match record.get(key) {
        Some(Value::Str(s)) => Some(s.clone()),
        Some(Value::Int(i)) => Some(i64_to_dec(*i)),
        Some(Value::Date(d)) => Some(i64_to_dec(*d)),
        _ => None,
    }
}

/// Takes an argument out in its text form; the entry is removed whatever
/// its shape.
pub fn remove_acceptable_key(args: &mut ModuleArgs, key: &str) -> (r: Option<String>)
    requires
        old(args).wf(),
    ensures
        final(args).wf(),
        final(args)@ == old(args)@.remove(key@),
        match r {
            Some(s) => spec_acceptable_key(old(args)@, key@) == Some(s@),
            None => spec_acceptable_key(old(args)@, key@) is None,
        },
{
    match args.remove(key) {
        Some(Value::Str(s)) => Some(s),
        Some(Value::Int(i)) => Some(i64_to_dec(i)),
        Some(Value::Date(d)) => Some(i64_to_dec(d)),
        _ => None,
    }
}

/// What a well-formed counter action holds: the counter's name, the record
/// field giving the key, the optional field the count is saved into, and
/// the optional expiry offset in seconds.
pub struct CounterCfg {
    pub name: Seq<char>,
    pub key: Seq<char>,
    pub save: Option<Seq<char>>,
    pub duration: Option<int>,
}

/// The configuration read from the arguments: `counter` and `for` must
/// carry key texts; the duration entry, when present, must be an integer.
pub open spec fn counter_cfg(m0: Map<Seq<char>, ValueView>, duration_name: Seq<char>) -> Option<
    CounterCfg,
> {
    let name = spec_acceptable_key(m0, "counter"@);
    let m1 = m0.remove("counter"@);
    let key = spec_acceptable_key(m1, "for"@);
    let m2 = m1.remove("for"@);
    let save = spec_acceptable_key(m2, "save"@);
    let m3 = m2.remove("save"@);
    if name is None || key is None {
        None
    } else if m3.contains_key(duration_name) && !(m3[duration_name] is Int) {
        None
    } else {
        Some(
            CounterCfg {
                name: name->0,
                key: key->0,
                save,
                duration: if m3.contains_key(duration_name) {
                    Some(m3[duration_name]->Int_0 as int)
                } else {
                    None
                },
            },
        )
    }
}

/// The shared shape of the two counter actions.
pub struct CounterAction {
    counter_name: String,
    counter_key: String,
    save_into: Option<String>,
    duration: Option<i64>,
}

impl CounterAction {
    /// The configuration this action was built from.
    pub closed spec fn cfg(self) -> CounterCfg {
        CounterCfg {
            name: self.counter_name@,
            key: self.counter_key@,
            save: match self.save_into {
                Some(s) => Some(s@),
                None => None,
            },
            duration: match self.duration {
                Some(d) => Some(d as int),
                None => None,
            },
        }
    }

    /// Builds the shared shape; `duration_name` names the expiry-offset
    /// argument, and `action_name` only flavours the error text.
    pub fn from_args(args: ModuleArgs, action_name: &str, duration_name: &str) -> (r: Result<
        CounterAction,
        Error,
    >)
        requires
            args.wf(),
        ensures
            match r {
                Ok(a) => counter_cfg(args@, duration_name@) == Some(a.cfg()),
                Err(_) => counter_cfg(args@, duration_name@) is None,
            },
    {
        let mut args = args;
        let counter_name: String = match remove_acceptable_key(&mut args, "counter") {
            Some(s) => s,
            None => {
                let mut m: String = String::from_str("The ");
                m.append(action_name);
                m.append(" action needs a counter name in \"counter\"");
                return Err(Error::new(m));
            },
        };
        let counter_key: String = match remove_acceptable_key(&mut args, "for") {
            Some(s) => s,
            None => {
                let mut m: String = String::from_str("The ");
                m.append(action_name);
                m.append(" action needs a counter key in \"for\"");
                return Err(Error::new(m));
            },
        };
        let save_into: Option<String> = remove_acceptable_key(&mut args, "save");
        let duration: Option<i64> = match args.remove(duration_name) {
            None => None,
            Some(Value::Int(i)) => Some(i),
            Some(_) => {
                let mut m: String = String::from_str("The ");
                m.append(action_name);
                m.append(" only accepts a number of seconds in \"");
                m.append(duration_name);
                m.append("\"");
                return Err(Error::new(m));
            },
        };
        Ok(CounterAction { counter_name, counter_key, save_into, duration })
    }
}

/// How a counter action leaves the record: when a save field is set, the
/// returned count is written there as an integer.
pub open spec fn saved_record(
    rec: Map<Seq<char>, ValueView>,
    save: Option<Seq<char>>,
    count: nat,
) -> Map<Seq<char>, ValueView> {
    match save {
        Some(s) => rec.insert(s, ValueView::Int(count as i64 as int)),
        None => rec,
    }
}

/// Raises a counter by one for the key found in the configured record
/// field.
pub struct CounterRaise {
    act: CounterAction,
}

impl CounterRaise {
    pub closed spec fn cfg(self) -> CounterCfg {
        self.act.cfg()
    }

    pub fn from_args(args: ModuleArgs) -> (r: Result<CounterRaise, Error>)
        requires
            args.wf(),
        ensures
            match r {
                Ok(a) => counter_cfg(args@, "keepSeconds"@) == Some(a.cfg()),
                Err(_) => counter_cfg(args@, "keepSeconds"@) is None,
            },
    {
        match CounterAction::from_args(args, "CounterRaise", "keepSeconds") {
            Ok(act) => Ok(CounterRaise { act }),
            Err(e) => Err(e),
        }
    }

    /// Augments the counter keyed by the record's field value by one, and
    /// writes the new count into the save field if one is configured.
    /// Fails exactly when the key field is missing from the record.
    pub fn act(&self, record: &mut Record, counters: &mut Counters, now: i64) -> (r: Result<
        (),
        Error,
    >)
        requires
            old(record).wf(),
            old(counters).wf(),
        ensures
            final(record).wf(),
            final(counters).wf(),
            match r {
                Ok(_) => old(record)@.contains_key(self.cfg().key) && ({
                    let res = spec_augment(
                        old(counters)@,
                        (self.cfg().name, old(record)@[self.cfg().key]),
                        (
                            1,
                            match self.cfg().duration {
                                Some(d) => Some(crate::clock::sat_add(now as int, d)),
                                None => None,
                            },
                        ),
                        now as int,
                    );
                    final(counters)@ == res.0 && final(record)@ == saved_record(
                        old(record)@,
                        self.cfg().save,
                        res.1,
                    )
                }),
                Err(e) => !old(record)@.contains_key(self.cfg().key) && final(record)@ == old(
                    record,
                )@ && final(counters)@ == old(counters)@ && e.message@ == "Key "@ + self.cfg().key
                    + " not found in the log entry"@,
            },
    {
        let key_val: Value = match record.get(self.act.counter_key.as_str()) {
            Some(v) => v.clone(),
            None => {
                let mut m: String = String::from_str("Key ");
                m.append(self.act.counter_key.as_str());
                m.append(" not found in the log entry");
                return Err(Error::new(m));
            },
        };
        let expiry: Option<i64> = match self.act.duration {
            Some(d) => Some(crate::clock::i64_sat_add(now, d)),
            None => None,
        };
        let count: usize = counters.augment(
            (self.act.counter_name.as_str(), &key_val),
            (1, expiry),
            now,
        );
        match &self.act.save_into {
            Some(s) => {
                record.insert(s.clone(), Value::Int(count as i64));
            },
            None => {},
        }
        Ok(())
    }
}

/// Resets a counter, optionally leaving a grace period behind.
pub struct CounterReset {
    act: CounterAction,
}

impl CounterReset {
    pub closed spec fn cfg(self) -> CounterCfg {
        self.act.cfg()
    }

    pub fn from_args(args: ModuleArgs) -> (r: Result<CounterReset, Error>)
        requires
            args.wf(),
        ensures
            match r {
                Ok(a) => counter_cfg(args@, "graceSeconds"@) == Some(a.cfg()),
                Err(_) => counter_cfg(args@, "graceSeconds"@) is None,
            },
    {
        match CounterAction::from_args(args, "CounterReset", "graceSeconds") {
            Ok(act) => Ok(CounterReset { act }),
            Err(e) => Err(e),
        }
    }

    /// Resets the counter keyed by the record's field value, and writes the
    /// returned zero into the save field if one is configured. Fails
    /// exactly when the key field is missing from the record.
    pub fn act(&self, record: &mut Record, counters: &mut Counters, now: i64) -> (r: Result<
        (),
        Error,
    >)
        requires
            old(record).wf(),
            old(counters).wf(),
        ensures
            final(record).wf(),
            final(counters).wf(),
            match r {
                Ok(_) => old(record)@.contains_key(self.cfg().key) && final(counters)@
                    == spec_reset(
                    old(counters)@,
                    (self.cfg().name, old(record)@[self.cfg().key]),
                    match self.cfg().duration {
                        Some(d) => Some(crate::clock::sat_add(now as int, d)),
                        None => None,
                    },
                    now as int,
                ) && final(record)@ == saved_record(old(record)@, self.cfg().save, 0),
                Err(e) => !old(record)@.contains_key(self.cfg().key) && final(record)@ == old(
                    record,
                )@ && final(counters)@ == old(counters)@ && e.message@ == "Key "@ + self.cfg().key
                    + " not found in the log entry"@,
            },
    {
        let key_val: Value = match record.get(self.act.counter_key.as_str()) {
            Some(v) => v.clone(),
            None => {
                let mut m: String = String::from_str("Key ");
                m.append(self.act.counter_key.as_str());
                m.append(" not found in the log entry");
                return Err(Error::new(m));
            },
        };
        let grace_until: Option<i64> = match self.act.duration {
            Some(d) => Some(crate::clock::i64_sat_add(now, d)),
            None => None,
        };
        let count: usize = counters.reset(
            (self.act.counter_name.as_str(), &key_val),
            grace_until,
            now,
        );
        match &self.act.save_into {
            Some(s) => {
                record.insert(s.clone(), Value::Int(count as i64));
            },
            None => {},
        }
        Ok(())
    }
}

/// What a well-formed log action holds: the syslog severity and the
/// message template's text.
pub struct LogCfg {
    pub level: int,
    pub message: Seq<char>,
}

/// The severity a level name stands for; an unknown name falls back to
/// informational.
pub open spec fn spec_level_of(l: Seq<char>) -> int {
    if l == "EMERG"@ {
        0
    } else if l == "ALERT"@ {
        1
    } else if l == "CRIT"@ {
        2
    } else if l == "ERR"@ {
        3
    } else if l == "WARNING"@ {
        4
    } else if l == "NOTICE"@ {
        5
    } else if l == "INFO"@ {
        6
    } else if l == "DEBUG"@ {
        7
    } else {
        6
    }
}

/// The configuration read from the arguments: a string `message` is
/// required; `level` is optional and defaults to informational.
pub open spec fn log_cfg(m0: Map<Seq<char>, ValueView>) -> Option<LogCfg> {
    let level: int = if m0.contains_key("level"@) && m0["level"@] is Str {
        spec_level_of(m0["level"@]->Str_0)
    } else {
        6
    };
    let m1 = m0.remove("level"@);
    if m1.contains_key("message"@) && m1["message"@] is Str {
        Some(LogCfg { level, message: m1["message"@]->Str_0 })
    } else {
        None
    }
}

/// Renders a template against the record and writes it to the log port at
/// the configured severity.
pub struct Log {
    level: u8,
    template: Template,
}

fn severity_message<'t>(level: u8, text: &'t str) -> (r: LogMessage<'t>)
    requires
        level <= 7,
    ensures
        r.spec_severity() == level,
        r.spec_text() == text@,
{
    match level {
        0 => LogMessage::EMERG(text),
        1 => LogMessage::ALERT(text),
        2 => LogMessage::CRIT(text),
        3 => LogMessage::ERR(text),
        4 => LogMessage::WARNING(text),
        5 => LogMessage::NOTICE(text),
        6 => LogMessage::INFO(text),
        _ => LogMessage::DEBUG(text),
    }
}

impl Log {
    pub closed spec fn cfg(self) -> LogCfg {
        LogCfg { level: self.level as int, message: self.template@ }
    }

    pub closed spec fn wf(self) -> bool {
        self.template.wf() && self.level <= 7
    }

    pub fn from_args(args: ModuleArgs) -> (r: Result<Log, Error>)
        requires
            args.wf(),
        ensures
            match r {
                Ok(a) => log_cfg(args@) == Some(a.cfg()) && a.wf(),
                Err(_) => log_cfg(args@) is None,
            },
    {
        let mut args = args;
        let level: u8 = match args.remove("level") {
            Some(Value::Str(l)) => {
                if str_eq(l.as_str(), "EMERG") {
                    0
                } else if str_eq(l.as_str(), "ALERT") {
                    1
                } else if str_eq(l.as_str(), "CRIT") {
                    2
                } else if str_eq(l.as_str(), "ERR") {
                    3
                } else if str_eq(l.as_str(), "WARNING") {
                    4
                } else if str_eq(l.as_str(), "NOTICE") {
                    5
                } else if str_eq(l.as_str(), "INFO") {
                    6
                } else if str_eq(l.as_str(), "DEBUG") {
                    7
                } else {
                    6
                }
            },
            _ => 6,
        };
        let template: Template = match args.remove("message") {
            Some(Value::Str(s)) => Template::new(s),
            _ => {
                return Err(
                    Error::new(
                        String::from_str("The Log action needs a message template in \"message\""),
                    ),
                );
            },
        };
        Ok(Log { level, template })
    }

    /// Renders the template and hands the message to the log port; the
    /// record is left as it was, and the port's verdict is passed on.
    pub fn act<L: LogPort>(&self, record: &mut Record, logger: &mut L) -> (r: Result<(), Error>)
        requires
            old(record).wf(),
            self.wf(),
        ensures
            final(record).wf(),
            final(record)@ == old(record)@,
    {
        let message: String = self.template.format(record);
        let msg = severity_message(self.level, message.as_str());
        logger.write(msg)
    }
}

/// What a well-formed email action holds: the subject and the message
/// template's text.
pub struct EmailCfg {
    pub subject: Seq<char>,
    pub message: Seq<char>,
}

/// The configuration read from the arguments: a string `message` is
/// required; `subject` is optional and has a default.
pub open spec fn email_cfg(m0: Map<Seq<char>, ValueView>) -> Option<EmailCfg> {
    let subject: Seq<char> = if m0.contains_key("subject"@) && m0["subject"@] is Str {
        m0["subject"@]->Str_0
    } else {
        "Pyruse Notification"@
    };
    let m1 = m0.remove("subject"@);
    if m1.contains_key("message"@) && m1["message"@] is Str {
        Some(EmailCfg { subject, message: m1["message"@]->Str_0 })
    } else {
        None
    }
}

/// Renders a template against the record and hands the text to the mailer
/// port under the configured subject.
pub struct Email {
    subject: String,
    template: Template,
}

impl Email {
    pub closed spec fn cfg(self) -> EmailCfg {
        EmailCfg { subject: self.subject@, message: self.template@ }
    }

    pub closed spec fn wf(self) -> bool {
        self.template.wf()
    }

    pub fn from_args(args: ModuleArgs) -> (r: Result<Email, Error>)
        requires
            args.wf(),
        ensures
            match r {
                Ok(a) => email_cfg(args@) == Some(a.cfg()) && a.wf(),
                Err(_) => email_cfg(args@) is None,
            },
    {
        let mut args = args;
        let subject: String = match args.remove("subject") {
            Some(Value::Str(s)) => s,
            _ => String::from_str("Pyruse Notification"),
        };
        let template: Template = match args.remove("message") {
            Some(Value::Str(s)) => Template::new(s),
            _ => {
                return Err(
                    Error::new(
                        String::from_str("The Email action needs a message template in \"message\""),
                    ),
                );
            },
        };
        Ok(Email { subject, template })
    }

    /// Renders the template into the text part and hands the mail to the
    /// mailer port; the record is left as it was, and the port's verdict is
    /// passed on.
    pub fn act<M: EmailPort>(&self, record: &mut Record, mailer: &mut M) -> (r: Result<(), Error>)
        requires
            old(record).wf(),
            self.wf(),
        ensures
            final(record).wf(),
            final(record)@ == old(record)@,
    {
        let text: String = self.template.format(record);
        let mut email: EmailData = EmailData::new(self.subject.clone());
        email.text = Some(text);
        mailer.send(email)
    }
}

/// A tuple slot of a capture: read from a record field, or taken from a
/// literal value, the field winning when both are given and the field
/// resolves.
pub open spec fn spec_value_for(
    fv: (Option<Seq<char>>, Option<Seq<char>>),
    rec: Map<Seq<char>, ValueView>,
) -> Option<Seq<char>> {
    match fv.0 {
        Some(f) => match spec_acceptable_key(rec, f) {
            Some(s) => Some(s),
            None => fv.1,
        },
        None => fv.1,
    }
}

/// What a well-formed capture holds: for each tuple slot, an optional
/// record field and an optional literal, plus the retention in seconds.
pub struct CaptureCfg {
    pub src_addr: (Option<Seq<char>>, Option<Seq<char>>),
    pub src_port: (Option<Seq<char>>, Option<Seq<char>>),
    pub internal_addr: (Option<Seq<char>>, Option<Seq<char>>),
    pub internal_port: (Option<Seq<char>>, Option<Seq<char>>),
    pub dest_addr: (Option<Seq<char>>, Option<Seq<char>>),
    pub dest_port: (Option<Seq<char>>, Option<Seq<char>>),
    pub keep: int,
}

/// The configuration read from the arguments: `saddr` is required, and so
/// is one of `addr` and `addrValue`; the retention defaults to 63 seconds.
pub open spec fn capture_cfg(m0: Map<Seq<char>, ValueView>) -> Option<CaptureCfg> {
    let saddr = spec_acceptable_key(m0, "saddr"@);
    let m1 = m0.remove("saddr"@);
    let sport = spec_acceptable_key(m1, "sport"@);
    let m2 = m1.remove("sport"@);
    let addr = spec_acceptable_key(m2, "addr"@);
    let m3 = m2.remove("addr"@);
    let addrv = spec_acceptable_key(m3, "addrValue"@);
    let m4 = m3.remove("addrValue"@);
    let port = spec_acceptable_key(m4, "port"@);
    let m5 = m4.remove("port"@);
    let portv = spec_acceptable_key(m5, "portValue"@);
    let m6 = m5.remove("portValue"@);
    let daddr = spec_acceptable_key(m6, "daddr"@);
    let m7 = m6.remove("daddr"@);
    let daddrv = spec_acceptable_key(m7, "daddrValue"@);
    let m8 = m7.remove("daddrValue"@);
    let dport = spec_acceptable_key(m8, "dport"@);
    let m9 = m8.remove("dport"@);
    let dportv = spec_acceptable_key(m9, "dportValue"@);
    let m10 = m9.remove("dportValue"@);
    if saddr is None {
        None
    } else if addr is None && addrv is None {
        None
    } else {
        Some(
            CaptureCfg {
                src_addr: (Some(saddr->0), None),
                src_port: (sport, None),
                internal_addr: (addr, addrv),
                internal_port: (port, portv),
                dest_addr: (daddr, daddrv),
                dest_port: (dport, dportv),
                keep: if m10.contains_key("keepSeconds"@) && m10["keepSeconds"@] is Int {
                    m10["keepSeconds"@]->Int_0 as int
                } else {
                    63
                },
            },
        )
    }
}

/// The mapping a capture stores for a record, when the record resolves
/// both required slots.
pub open spec fn captured_mapping(cfg: CaptureCfg, rec: Map<Seq<char>, ValueView>, now: int) -> crate::dnat::DnatMappingView {
    crate::dnat::DnatMappingView {
        src_addr: spec_value_for(cfg.src_addr, rec),
        src_port: spec_value_for(cfg.src_port, rec),
        internal_addr: spec_value_for(cfg.internal_addr, rec),
        internal_port: spec_value_for(cfg.internal_port, rec),
        dest_addr: spec_value_for(cfg.dest_addr, rec),
        dest_port: spec_value_for(cfg.dest_port, rec),
        keep_until: crate::clock::sat_add(now, cfg.keep),
    }
}

fn value_for(fv: &(Option<String>, Option<String>), record: &Record) -> (r: Option<String>)
    requires
        record.wf(),
    ensures
        crate::dnat::opt_str_view(r) == spec_value_for(
            (crate::dnat::opt_str_view(fv.0), crate::dnat::opt_str_view(fv.1)),
            record@,
        ),
{
    let first: Option<String> = match &fv.0 {
        Some(f) => get_acceptable_key(record, f.as_str()),
        None => None,
    };
    match first {
        Some(s) => Some(s),
        None => match &fv.1 {
            Some(v) => Some(v.clone()),
            None => None,
        },
    }
}

/// Observes a DNAT rewrite: reads the configured tuple slots from the
/// record and stores them in the mapping cache for the retention window.
pub struct DnatCapture {
    src_addr: (Option<String>, Option<String>),
    src_port: (Option<String>, Option<String>),
    internal_addr: (Option<String>, Option<String>),
    internal_port: (Option<String>, Option<String>),
    dest_addr: (Option<String>, Option<String>),
    dest_port: (Option<String>, Option<String>),
    keep_duration: i64,
}

pub open spec fn fv_view(fv: (Option<String>, Option<String>)) -> (
    Option<Seq<char>>,
    Option<Seq<char>>,
) {
    (crate::dnat::opt_str_view(fv.0), crate::dnat::opt_str_view(fv.1))
}

impl DnatCapture {
    pub closed spec fn cfg(self) -> CaptureCfg {
        CaptureCfg {
            src_addr: fv_view(self.src_addr),
            src_port: fv_view(self.src_port),
            internal_addr: fv_view(self.internal_addr),
            internal_port: fv_view(self.internal_port),
            dest_addr: fv_view(self.dest_addr),
            dest_port: fv_view(self.dest_port),
            keep: self.keep_duration as int,
        }
    }

    pub fn from_args(args: ModuleArgs) -> (r: Result<DnatCapture, Error>)
        requires
            args.wf(),
        ensures
            match r {
                Ok(a) => capture_cfg(args@) == Some(a.cfg()),
                Err(_) => capture_cfg(args@) is None,
            },
    {
        let mut args = args;
        let saddr: String = match remove_acceptable_key(&mut args, "saddr") {
            Some(s) => s,
            None => {
                return Err(
                    Error::new(
                        String::from_str(
                            "The DnatCapture action needs a log field for the source address in \"saddr\"",
                        ),
                    ),
                );
            },
        };
        let src_port = (remove_acceptable_key(&mut args, "sport"), None);
        let internal_addr = (
            remove_acceptable_key(&mut args, "addr"),
            remove_acceptable_key(&mut args, "addrValue"),
        );
        let addr_missing: bool = match &internal_addr {
            (None, None) => true,
            _ => false,
        };
        if addr_missing {
            return Err(
                Error::new(
                    String::from_str(
                        "The DnatCapture action requires either a field (\"addr\") or a value (\"addrValue\") for the internal address",
                    ),
                ),
            );
        }
        let internal_port = (
            remove_acceptable_key(&mut args, "port"),
            remove_acceptable_key(&mut args, "portValue"),
        );
        let dest_addr = (
            remove_acceptable_key(&mut args, "daddr"),
            remove_acceptable_key(&mut args, "daddrValue"),
        );
        let dest_port = (
            remove_acceptable_key(&mut args, "dport"),
            remove_acceptable_key(&mut args, "dportValue"),
        );
        let keep_duration: i64 = match args.remove("keepSeconds") {
            Some(Value::Int(i)) => i,
            _ => 63,
        };
        Ok(
            DnatCapture {
                src_addr: (Some(saddr), None),
                src_port,
                internal_addr,
                internal_port,
                dest_addr,
                dest_port,
                keep_duration,
            },
        )
    }

    /// Stores the observed mapping when the source and internal addresses
    /// both resolve on this record; otherwise the record is skipped. Never
    /// fails; the record is left as it was.
    pub fn act(
        &self,
        record: &mut Record,
        dnat: &mut crate::dnat::InMemoryDnatMappingsAdapter,
        now: i64,
    ) -> (r: Result<(), Error>)
        requires
            old(record).wf(),
        ensures
            final(record).wf(),
            final(record)@ == old(record)@,
            r is Ok,
            ({
                let sa = spec_value_for(self.cfg().src_addr, old(record)@);
                let ia = spec_value_for(self.cfg().internal_addr, old(record)@);
                if sa is None || ia is None {
                    final(dnat)@ == old(dnat)@
                } else {
                    final(dnat)@ == crate::dnat::purge_view(old(dnat)@, now as int).push(
                        captured_mapping(self.cfg(), old(record)@, now as int),
                    )
                }
            }),
    {
        let src_addr: Option<String> = value_for(&self.src_addr, record);
        let internal_addr: Option<String> = value_for(&self.internal_addr, record);
        let skip: bool = match (&src_addr, &internal_addr) {
            (Some(_), Some(_)) => false,
            _ => true,
        };
        if skip {
            return Ok(());
        }
        let src_port: Option<String> = value_for(&self.src_port, record);
        let internal_port: Option<String> = value_for(&self.internal_port, record);
        let dest_addr: Option<String> = value_for(&self.dest_addr, record);
        let dest_port: Option<String> = value_for(&self.dest_port, record);
        dnat.put(
            crate::dnat::DnatMapping {
                src_addr,
                src_port,
                internal_addr,
                internal_port,
                dest_addr,
                dest_port,
                keep_until: crate::clock::i64_sat_add(now, self.keep_duration),
            },
            now,
        );
        Ok(())
    }
}

/// The six slots of a stored mapping, named.
#[derive(PartialEq, Eq, Structural, Clone, Copy, Debug)]
pub enum MappingField {
    SrcAddr,
    SrcPort,
    InternalAddr,
    InternalPort,
    DestAddr,
    DestPort,
}

/// The named slot of a mapping.
pub open spec fn spec_mapping_get(m: crate::dnat::DnatMappingView, f: MappingField) -> Option<
    Seq<char>,
> {
    match f {
        MappingField::SrcAddr => m.src_addr,
        MappingField::SrcPort => m.src_port,
        MappingField::InternalAddr => m.internal_addr,
        MappingField::InternalPort => m.internal_port,
        MappingField::DestAddr => m.dest_addr,
        MappingField::DestPort => m.dest_port,
    }
}

fn mapping_get(m: &crate::dnat::DnatMapping, f: MappingField) -> (r: &Option<String>)
    ensures
        crate::dnat::opt_str_view(*r) == spec_mapping_get(m@, f),
{
    match f {
        MappingField::SrcAddr => &m.src_addr,
        MappingField::SrcPort => &m.src_port,
        MappingField::InternalAddr => &m.internal_addr,
        MappingField::InternalPort => &m.internal_port,
        MappingField::DestAddr => &m.dest_addr,
        MappingField::DestPort => &m.dest_port,
    }
}

/// What a well-formed replace holds: the matcher fields and the updater
/// fields, each tied to a mapping slot.
pub struct ReplaceCfg {
    pub matchers: Seq<(Seq<char>, MappingField)>,
    pub updaters: Seq<(Seq<char>, MappingField)>,
}

/// The configuration read from the arguments: at least one matcher among
/// `addr`, `port`, `daddr`, `dport`, and a required `saddrInto` updater
/// with an optional `sportInto`.
pub open spec fn replace_cfg(m0: Map<Seq<char>, ValueView>) -> Option<ReplaceCfg> {
    let addr = spec_acceptable_key(m0, "addr"@);
    let m1 = m0.remove("addr"@);
    let port = spec_acceptable_key(m1, "port"@);
    let m2 = m1.remove("port"@);
    let daddr = spec_acceptable_key(m2, "daddr"@);
    let m3 = m2.remove("daddr"@);
    let dport = spec_acceptable_key(m3, "dport"@);
    let m4 = m3.remove("dport"@);
    let ms0 = Seq::<(Seq<char>, MappingField)>::empty();
    let ms1 = if addr is Some {
        ms0.push((addr->0, MappingField::InternalAddr))
    } else {
        ms0
    };
    let ms2 = if port is Some {
        ms1.push((port->0, MappingField::InternalPort))
    } else {
        ms1
    };
    let ms3 = if daddr is Some {
        ms2.push((daddr->0, MappingField::DestAddr))
    } else {
        ms2
    };
    let ms4 = if dport is Some {
        ms3.push((dport->0, MappingField::DestPort))
    } else {
        ms3
    };
    let saddr_into = spec_acceptable_key(m4, "saddrInto"@);
    let m5 = m4.remove("saddrInto"@);
    let sport_into = spec_acceptable_key(m5, "sportInto"@);
    if ms4.len() == 0 {
        None
    } else if saddr_into is None {
        None
    } else {
        let us0 = seq![(saddr_into->0, MappingField::SrcAddr)];
        let us1 = if sport_into is Some {
            us0.push((sport_into->0, MappingField::SrcPort))
        } else {
            us0
        };
        Some(ReplaceCfg { matchers: ms4, updaters: us1 })
    }
}

/// Whether a mapping agrees with the record on every matcher field.
pub open spec fn match_at(
    m: crate::dnat::DnatMappingView,
    matchers: Seq<(Seq<char>, MappingField)>,
    rec: Map<Seq<char>, ValueView>,
) -> bool {
    forall|k: int|
        0 <= k < matchers.len() ==> spec_acceptable_key(rec, (#[trigger] matchers[k]).0)
            == spec_mapping_get(m, matchers[k].1)
}

/// The first cached mapping (in insertion order, from `i` on) that agrees
/// with the record.
pub open spec fn first_match_from(
    s: Seq<crate::dnat::DnatMappingView>,
    matchers: Seq<(Seq<char>, MappingField)>,
    rec: Map<Seq<char>, ValueView>,
    i: int,
) -> Option<int>
    decreases s.len() - i,
    when 0 <= i
{
    if i >= s.len() {
        None
    } else if match_at(s[i], matchers, rec) {
        Some(i)
    } else {
        first_match_from(s, matchers, rec, i + 1)
    }
}

/// The record after the updaters ran: each updater whose mapping slot is
/// present writes that slot's text into its record field.
pub open spec fn apply_updaters(
    rec: Map<Seq<char>, ValueView>,
    m: crate::dnat::DnatMappingView,
    us: Seq<(Seq<char>, MappingField)>,
    k: int,
) -> Map<Seq<char>, ValueView>
    decreases us.len() - k,
    when 0 <= k
{
    if k >= us.len() {
        rec
    } else {
        let r2 = match spec_mapping_get(m, us[k].1) {
            Some(v) => rec.insert(us[k].0, ValueView::Str(v)),
            None => rec,
        };
        apply_updaters(r2, m, us, k + 1)
    }
}

/// Undoes a DNAT rewrite on a record: finds the first cached mapping that
/// agrees with the record's matcher fields and writes the mapping's source
/// slots back into the record.
pub struct DnatReplace {
    matchers: Vec<(String, MappingField)>,
    updaters: Vec<(String, MappingField)>,
}

pub open spec fn fields_view(s: Seq<(String, MappingField)>) -> Seq<(Seq<char>, MappingField)> {
    Seq::new(s.len(), |i: int| (s[i].0@, s[i].1))
}

fn opt_str_eq(a: &Option<String>, b: &Option<String>) -> (r: bool)
    ensures
        r == (crate::dnat::opt_str_view(*a) == crate::dnat::opt_str_view(*b)),
{
    match (a, b) {
        (Some(x), Some(y)) => str_eq(x.as_str(), y.as_str()),
        (None, None) => true,
        _ => false,
    }
}

impl DnatReplace {
    pub closed spec fn cfg(self) -> ReplaceCfg {
        ReplaceCfg { matchers: fields_view(self.matchers@), updaters: fields_view(self.updaters@) }
    }

    pub fn from_args(args: ModuleArgs) -> (r: Result<DnatReplace, Error>)
        requires
            args.wf(),
        ensures
            match r {
                Ok(a) => replace_cfg(args@) == Some(a.cfg()),
                Err(_) => replace_cfg(args@) is None,
            },
    {
        let ghost m0 = args@;
        let mut args = args;
        let mut matchers: Vec<(String, MappingField)> = Vec::new();
        match remove_acceptable_key(&mut args, "addr") {
            Some(s) => {
                matchers.push((s, MappingField::InternalAddr));
            },
            None => {},
        }
        match remove_acceptable_key(&mut args, "port") {
            Some(s) => {
                matchers.push((s, MappingField::InternalPort));
            },
            None => {},
        }
        match remove_acceptable_key(&mut args, "daddr") {
            Some(s) => {
                matchers.push((s, MappingField::DestAddr));
            },
            None => {},
        }
        match remove_acceptable_key(&mut args, "dport") {
            Some(s) => {
                matchers.push((s, MappingField::DestPort));
            },
            None => {},
        }
        if matchers.len() == 0 {
            return Err(
                Error::new(
                    String::from_str(
                        "The DnatReplace action needs at least one log field on which to do the matching",
                    ),
                ),
            );
        }
        let mut updaters: Vec<(String, MappingField)> = Vec::new();
        let saddr_into: String = match remove_acceptable_key(&mut args, "saddrInto") {
            Some(s) => s,
            None => {
                return Err(
                    Error::new(
                        String::from_str(
                            "The DnatReplace action needs a log field to replace in \"saddrInto\"",
                        ),
                    ),
                );
            },
        };
        updaters.push((saddr_into, MappingField::SrcAddr));
        match remove_acceptable_key(&mut args, "sportInto") {
            Some(s) => {
                updaters.push((s, MappingField::SrcPort));
            },
            None => {},
        }
        let r = DnatReplace { matchers, updaters };
        proof {
            let addr = spec_acceptable_key(m0, "addr"@);
            let m1 = m0.remove("addr"@);
            let port = spec_acceptable_key(m1, "port"@);
            let m2 = m1.remove("port"@);
            let daddr = spec_acceptable_key(m2, "daddr"@);
            let m3 = m2.remove("daddr"@);
            let dport = spec_acceptable_key(m3, "dport"@);
            let m4 = m3.remove("dport"@);
            let ms0 = Seq::<(Seq<char>, MappingField)>::empty();
            let ms1 = if addr is Some {
                ms0.push((addr->0, MappingField::InternalAddr))
            } else {
                ms0
            };
            let ms2 = if port is Some {
                ms1.push((port->0, MappingField::InternalPort))
            } else {
                ms1
            };
            let ms3 = if daddr is Some {
                ms2.push((daddr->0, MappingField::DestAddr))
            } else {
                ms2
            };
            let ms4 = if dport is Some {
                ms3.push((dport->0, MappingField::DestPort))
            } else {
                ms3
            };
            let saddr_into = spec_acceptable_key(m4, "saddrInto"@);
            let m5 = m4.remove("saddrInto"@);
            let sport_into = spec_acceptable_key(m5, "sportInto"@);
            let us0 = seq![(saddr_into->0, MappingField::SrcAddr)];
            let us1 = if sport_into is Some {
                us0.push((sport_into->0, MappingField::SrcPort))
            } else {
                us0
            };
            assert(fields_view(r.matchers@) =~= ms4);
            assert(fields_view(r.updaters@) =~= us1);
        }
        Ok(r)
    }

    /// Scans the cache in insertion order for the first mapping agreeing
    /// with the record's matcher fields and writes the updaters from it;
    /// a record missing a matcher field, or matching nothing, is left
    /// unchanged. Never fails.
    pub fn act(
        &self,
        record: &mut Record,
        dnat: &mut crate::dnat::InMemoryDnatMappingsAdapter,
        now: i64,
    ) -> (r: Result<(), Error>)
        requires
            old(record).wf(),
        ensures
            final(record).wf(),
            r is Ok,
            ({
                let purged = crate::dnat::purge_view(old(dnat)@, now as int);
                if exists|k: int|
                    0 <= k < self.cfg().matchers.len() && !old(record)@.contains_key(
                        (#[trigger] self.cfg().matchers[k]).0,
                    ) {
                    final(record)@ == old(record)@ && final(dnat)@ == old(dnat)@
                } else {
                    final(dnat)@ == purged && match first_match_from(
                        purged,
                        self.cfg().matchers,
                        old(record)@,
                        0,
                    ) {
                        Some(k) => final(record)@ == apply_updaters(
                            old(record)@,
                            purged[k],
                            self.cfg().updaters,
                            0,
                        ),
                        None => final(record)@ == old(record)@,
                    }
                }
            }),
    {
        let ghost rec0 = record@;
        proof {
            assert(rec0 == old(record)@);
        }
        let mut i: usize = 0;
        while i < self.matchers.len()
            invariant
                record.wf(),
                rec0 == record@,
                rec0 == old(record)@,
                i <= self.matchers@.len(),
                self.cfg().matchers.len() == self.matchers@.len(),
                forall|j: int|
                    0 <= j < self.matchers@.len() ==> #[trigger] self.cfg().matchers[j] == (
                        self.matchers@[j].0@,
                        self.matchers@[j].1,
                    ),
                forall|j: int| 0 <= j < i ==> rec0.contains_key(self.cfg().matchers[j].0),
            decreases self.matchers@.len() - i,
        {
            if !record.contains_key(self.matchers[i].0.as_str()) {
                proof {
                    assert(!old(record)@.contains_key(self.cfg().matchers[i as int].0));
                }
                return Ok(());
            }
            i = i + 1;
        }
        proof {
            assert forall|k2: int|
                0 <= k2 < self.cfg().matchers.len() implies old(record)@.contains_key(
                (#[trigger] self.cfg().matchers[k2]).0,
            ) by {
                assert(rec0.contains_key(self.cfg().matchers[k2].0));
            }
        }
        let all: Vec<crate::dnat::DnatMapping> = dnat.get_all(now);
        let ghost purged = crate::dnat::purge_view(old(dnat)@, now as int);
        let mut idx: usize = 0;
        while idx < all.len()
            invariant
                record.wf(),
                rec0 == record@,
                rec0 == old(record)@,
                purged == crate::dnat::purge_view(old(dnat)@, now as int),
                forall|j: int|
                    0 <= j < self.cfg().matchers.len() ==> rec0.contains_key(
                        (#[trigger] self.cfg().matchers[j]).0,
                    ),
                idx <= all@.len(),
                crate::dnat::mappings_view(all@) == purged,
                purged.len() == all@.len(),
                forall|j: int| 0 <= j < all@.len() ==> #[trigger] all@[j]@ == purged[j],
                self.cfg().matchers.len() == self.matchers@.len(),
                forall|j: int|
                    0 <= j < self.matchers@.len() ==> #[trigger] self.cfg().matchers[j] == (
                        self.matchers@[j].0@,
                        self.matchers@[j].1,
                    ),
                self.cfg().updaters.len() == self.updaters@.len(),
                forall|j: int|
                    0 <= j < self.updaters@.len() ==> #[trigger] self.cfg().updaters[j] == (
                        self.updaters@[j].0@,
                        self.updaters@[j].1,
                    ),
                first_match_from(purged, self.cfg().matchers, rec0, 0) == first_match_from(
                    purged,
                    self.cfg().matchers,
                    rec0,
                    idx as int,
                ),
                dnat@ == purged,
            decreases all@.len() - idx,
        {
            let mut found: bool = true;
            let mut j: usize = 0;
            while j < self.matchers.len() && found
                invariant
                    record.wf(),
                    rec0 == record@,
                    idx < all@.len(),
                    forall|j2: int| 0 <= j2 < all@.len() ==> #[trigger] all@[j2]@ == purged[j2],
                    j <= self.matchers@.len(),
                    self.cfg().matchers.len() == self.matchers@.len(),
                    forall|j2: int|
                        0 <= j2 < self.matchers@.len() ==> #[trigger] self.cfg().matchers[j2] == (
                            self.matchers@[j2].0@,
                            self.matchers@[j2].1,
                        ),
                    found ==> forall|j2: int|
                        0 <= j2 < j ==> spec_acceptable_key(
                            rec0,
                            (#[trigger] self.cfg().matchers[j2]).0,
                        ) == spec_mapping_get(purged[idx as int], self.cfg().matchers[j2].1),
                    !found ==> !match_at(purged[idx as int], self.cfg().matchers, rec0),
                decreases self.matchers@.len() - j + (if found {
                    1int
                } else {
                    0int
                }),
            {
                let field_text: Option<String> = get_acceptable_key(
                    record,
                    self.matchers[j].0.as_str(),
                );
                let slot: &Option<String> = mapping_get(&all[idx], self.matchers[j].1);
                if !opt_str_eq(&field_text, slot) {
                    proof {
                        assert(spec_acceptable_key(rec0, self.cfg().matchers[j as int].0)
                            != spec_mapping_get(
                            purged[idx as int],
                            self.cfg().matchers[j as int].1,
                        ));
                    }
                    found = false;
                } else {
                    j = j + 1;
                }
            }
            if found {
                proof {
                    assert(match_at(purged[idx as int], self.cfg().matchers, rec0));
                    assert(first_match_from(purged, self.cfg().matchers, rec0, idx as int)
                        == Some(idx as int));
                }
                let ghost m = purged[idx as int];
                let mut k: usize = 0;
                proof {
                    assert(apply_updaters(rec0, m, self.cfg().updaters, 0) == apply_updaters(
                        record@,
                        m,
                        self.cfg().updaters,
                        0,
                    ));
                }
                while k < self.updaters.len()
                    invariant
                        record.wf(),
                        rec0 == old(record)@,
                        purged == crate::dnat::purge_view(old(dnat)@, now as int),
                        dnat@ == purged,
                        idx < all@.len(),
                        forall|j2: int| 0 <= j2 < all@.len() ==> #[trigger] all@[j2]@ == purged[j2],
                        m == purged[idx as int],
                        k <= self.updaters@.len(),
                        self.cfg().updaters.len() == self.updaters@.len(),
                        forall|j2: int|
                            0 <= j2 < self.updaters@.len() ==> #[trigger] self.cfg().updaters[j2]
                                == (self.updaters@[j2].0@, self.updaters@[j2].1),
                        apply_updaters(rec0, m, self.cfg().updaters, 0) == apply_updaters(
                            record@,
                            m,
                            self.cfg().updaters,
                            k as int,
                        ),
                    decreases self.updaters@.len() - k,
                {
                    let slot: &Option<String> = mapping_get(&all[idx], self.updaters[k].1);
                    match slot {
                        Some(v) => {
                            record.insert(self.updaters[k].0.clone(), Value::Str(v.clone()));
                        },
                        None => {},
                    }
                    k = k + 1;
                }
                proof {
                    assert(apply_updaters(record@, m, self.cfg().updaters, k as int) == record@);
                    assert(first_match_from(purged, self.cfg().matchers, rec0, 0) == Some(
                        idx as int,
                    ));
                    assert(dnat@ == purged);
                    assert(record@ == apply_updaters(
                        old(record)@,
                        purged[idx as int],
                        self.cfg().updaters,
                        0,
                    ));
                }
                return Ok(());
            }
            proof {
                assert(first_match_from(purged, self.cfg().matchers, rec0, idx as int)
                    == first_match_from(purged, self.cfg().matchers, rec0, idx as int + 1));
            }
            idx = idx + 1;
        }
        Ok(())
    }
}

/// Which kernel backend a ban action drives.
#[derive(PartialEq, Eq, Structural, Clone, Copy, Debug)]
pub enum NfFlavor {
    Ipset,
    Nft,
}

/// What a well-formed ban action holds: the IPv4 and IPv6 set names, the
/// record field carrying the address, and the optional ban length.
pub struct BanCfg {
    pub ipv4_set: Seq<char>,
    pub ipv6_set: Seq<char>,
    pub field: Seq<char>,
    pub ban_seconds: Option<int>,
}

/// The configuration read from the arguments: both set names and the `IP`
/// field are required strings; `banSeconds` is kept only as an integer.
pub open spec fn ban_cfg(
    m0: Map<Seq<char>, ValueView>,
    ipv4_arg: Seq<char>,
    ipv6_arg: Seq<char>,
) -> Option<BanCfg> {
    if !(m0.contains_key(ipv4_arg) && m0[ipv4_arg] is Str) {
        None
    } else {
        let m1 = m0.remove(ipv4_arg);
        if !(m1.contains_key(ipv6_arg) && m1[ipv6_arg] is Str) {
            None
        } else {
            let m2 = m1.remove(ipv6_arg);
            if !(m2.contains_key("IP"@) && m2["IP"@] is Str) {
                None
            } else {
                let m3 = m2.remove("IP"@);
                Some(
                    BanCfg {
                        ipv4_set: m0[ipv4_arg]->Str_0,
                        ipv6_set: m1[ipv6_arg]->Str_0,
                        field: m2["IP"@]->Str_0,
                        ban_seconds: if m3.contains_key("banSeconds"@) && m3["banSeconds"@]
                            is Int {
                            Some(m3["banSeconds"@]->Int_0 as int)
                        } else {
                            None
                        },
                    },
                )
            }
        }
    }
}

/// Installs a ban for the address found in the configured record field:
/// stores it durably, cancels a stale kernel entry when one was stored,
/// and drives the kernel backend.
pub struct NetfilterBan {
    ipv4_set: String,
    ipv6_set: String,
    field: String,
    ban_seconds: Option<i64>,
    flavor: NfFlavor,
}

impl NetfilterBan {
    pub closed spec fn cfg(self) -> BanCfg {
        BanCfg {
            ipv4_set: self.ipv4_set@,
            ipv6_set: self.ipv6_set@,
            field: self.field@,
            ban_seconds: match self.ban_seconds {
                Some(s) => Some(s as int),
                None => None,
            },
        }
    }

    /// Which backend pair this action drives.
    pub closed spec fn spec_flavor(self) -> NfFlavor {
        self.flavor
    }

    /// Whether this action drives the ipset backend pair.
    pub fn flavor_is_ipset(&self) -> (r: bool)
        ensures
            r == (self.spec_flavor() == NfFlavor::Ipset),
    {
        match self.flavor {
            NfFlavor::Ipset => true,
            NfFlavor::Nft => false,
        }
    }

    pub fn from_args(
        args: ModuleArgs,
        module_alias: &str,
        ipv4_arg_name: &str,
        ipv6_arg_name: &str,
        flavor: NfFlavor,
    ) -> (r: Result<NetfilterBan, Error>)
        requires
            args.wf(),
        ensures
            match r {
                Ok(a) => ban_cfg(args@, ipv4_arg_name@, ipv6_arg_name@) == Some(a.cfg())
                    && a.spec_flavor() == flavor,
                Err(_) => ban_cfg(args@, ipv4_arg_name@, ipv6_arg_name@) is None,
            },
    {
        let mut args = args;
        let ipv4_set: String = match args.remove(ipv4_arg_name) {
            Some(Value::Str(s)) => s,
            _ => {
                let mut m: String = String::from_str("The ");
                m.append(module_alias);
                m.append(" action needs an IPv4 set name in \"");
                m.append(ipv4_arg_name);
                m.append("\"");
                return Err(Error::new(m));
            },
        };
        let ipv6_set: String = match args.remove(ipv6_arg_name) {
            Some(Value::Str(s)) => s,
            _ => {
                let mut m: String = String::from_str("The ");
                m.append(module_alias);
                m.append(" action needs an IPv6 set name in \"");
                m.append(ipv4_arg_name);
                m.append("\"");
                return Err(Error::new(m));
            },
        };
        let field: String = match args.remove("IP") {
            Some(Value::Str(s)) => s,
            _ => {
                let mut m: String = String::from_str("The ");
                m.append(module_alias);
                m.append(" action needs a field to read the IP address from, in \"IP\"");
                return Err(Error::new(m));
            },
        };
        let ban_seconds: Option<i64> = match args.remove("banSeconds") {
            Some(Value::Int(i)) => Some(i),
            _ => None,
        };
        Ok(NetfilterBan { ipv4_set, ipv6_set, field, ban_seconds, flavor })
    }

    /// The kernel set the ban goes into: the IPv6 set exactly when the
    /// address carries a colon, the IPv4 set otherwise.
    pub fn set_for(&self, ip: &str) -> (r: &str)
        ensures
            r@ == (if ip@.contains(':') {
                self.cfg().ipv6_set
            } else {
                self.cfg().ipv4_set
            }),
    {
        if crate::text::str_contains_char(ip, ':') {
            self.ipv6_set.as_str()
        } else {
            self.ipv4_set.as_str()
        }
    }

    /// Reads the address from the record; absent or non-string, the record
    /// is skipped. Otherwise: the IPv6 set is chosen when the address has
    /// a colon; the ban is stored durably; a stale kernel entry is
    /// cancelled when one was stored (its failure swallowed); and the
    /// kernel ban is installed, whose verdict is passed on.
    pub fn act<B: crate::netfilter::NetfilterBackendPort, S: crate::netfilter::NetfilterStoragePort>(
        &self,
        record: &mut Record,
        backend: &mut B,
        storage: &mut S,
        now: i64,
    ) -> (r: Result<(), Error>)
        requires
            old(record).wf(),
        ensures
            final(record).wf(),
            final(record)@ == old(record)@,
            !(old(record)@.contains_key(self.cfg().field) && old(record)@[self.cfg().field]
                is Str) ==> r is Ok,
    {
        let ip: String = match record.get(self.field.as_str()) {
            Some(Value::Str(s)) => s.clone(),
            _ => {
                return Ok(());
            },
        };
        let set: &str = self.set_for(ip.as_str());
        let ban_until: Option<i64> = match self.ban_seconds {
            Some(s) => Some(crate::clock::i64_sat_add(now, s)),
            None => None,
        };
        let found: bool = match storage.store_and_remove_obsoletes(set, ip.as_str(), ban_until, now) {
            Ok(b) => b,
            Err(e) => {
                return Err(e);
            },
        };
        if found {
            match backend.cancel_ban(set, ip.as_str()) {
                Ok(_) => {},
                Err(_) => {},
            }
        }
        backend.set_ban(set, ip.as_str(), ban_until, now)
    }
}

/// The action that does nothing and always succeeds.
pub struct Noop {}

impl Noop {
    pub fn from_args(_args: ModuleArgs) -> (r: Noop) {
        Noop {  }
    }

    /// Succeeds and changes nothing.
    pub fn act(&self, record: &mut Record) -> (r: Result<(), Error>)
        ensures
            *final(record) == *old(record),
            r is Ok,
    {
        Ok(())
    }
}

} // verus!
