use crate::actions::apply_updaters;
use crate::actions::ban_cfg;
use crate::actions::capture_cfg;
use crate::actions::captured_mapping;
use crate::actions::counter_cfg;
use crate::actions::email_cfg;
use crate::actions::first_match_from;
use crate::actions::log_cfg;
use crate::actions::saved_record;
use crate::actions::spec_value_for;
use crate::actions::CaptureCfg;
use crate::actions::CounterCfg;
use crate::actions::CounterRaise;
use crate::actions::CounterReset;
use crate::actions::DnatCapture;
use crate::actions::DnatReplace;
use crate::actions::Email;
use crate::actions::Log;
use crate::actions::NetfilterBan;
use crate::actions::NfFlavor;
use crate::actions::Noop;
use crate::actions::ReplaceCfg;
use crate::counter::spec_augment;
use crate::counter::spec_reset;
use crate::counter::CData;
use crate::counter::CKey;
use crate::counter::Counters;
use crate::dnat::purge_view;
use crate::dnat::DnatMappingView;
use crate::dnat::InMemoryDnatMappingsAdapter;
use crate::email::EmailPort;
use crate::error::Error;
use crate::filters::equals_cfg;
use crate::filters::Equals;
use crate::log::LogPort;
use crate::netfilter::NetfilterBackendPort;
use crate::netfilter::NetfilterStoragePort;
use crate::record::ModuleArgs;
use crate::record::Record;
use crate::text::str_eq;
use crate::value::ValueView;
use vstd::prelude::*;

verus! {

/// The process-wide collaborators the modules share: the two in-memory
/// stores the library verifies, and the four ports whose adapters live
/// outside it. Execution is single-threaded, so no locking is needed.
pub struct Engine<L: LogPort, M: EmailPort, B: NetfilterBackendPort, S: NetfilterStoragePort> {
    pub counters: Counters,
    pub dnat: InMemoryDnatMappingsAdapter,
    pub logger: L,
    pub mailer: M,
    pub ipset_backend: B,
    pub ipset_storage: S,
    pub nft_backend: B,
    pub nft_storage: S,
}

impl<L: LogPort, M: EmailPort, B: NetfilterBackendPort, S: NetfilterStoragePort> Engine<L, M, B, S> {
    pub open spec fn wf(self) -> bool {
        self.counters.wf()
    }

    /// An engine with empty stores around the given ports.
    pub fn new(logger: L, mailer: M, ipset_backend: B, ipset_storage: S, nft_backend: B, nft_storage: S) -> (r: Engine<L, M, B, S>)
        ensures
            r.wf(),
            r.counters@ == Map::<CKey, CData>::empty(),
            r.dnat@ == Seq::<DnatMappingView>::empty(),
    {
        Engine {
            counters: Counters::new(),
            dnat: InMemoryDnatMappingsAdapter::new(),
            logger,
            mailer,
            ipset_backend,
            ipset_storage,
            nft_backend,
            nft_storage,
        }
    }
}

/// A compiled pipeline node body: one of the actions, or the one filter.
pub enum Module {
    CounterRaise(CounterRaise),
    CounterReset(CounterReset),
    DnatCapture(DnatCapture),
    DnatReplace(DnatReplace),
    Email(Email),
    Log(Log),
    NetfilterBan(NetfilterBan),
    Noop(Noop),
    Equals(Equals),
}

/// Whether a module name is known, and its arguments build a module.
pub open spec fn spec_module_ok(name: Seq<char>, m0: Map<Seq<char>, ValueView>) -> bool {
    if name == "action_counterRaise"@ {
        counter_cfg(m0, "keepSeconds"@) is Some
    } else if name == "action_counterReset"@ {
        counter_cfg(m0, "graceSeconds"@) is Some
    } else if name == "action_dnatCapture"@ {
        capture_cfg(m0) is Some
    } else if name == "action_dnatReplace"@ {
        crate::actions::replace_cfg(m0) is Some
    } else if name == "action_email"@ {
        email_cfg(m0) is Some
    } else if name == "action_ipsetBan"@ {
        ban_cfg(m0, "ipSetIPv4"@, "ipSetIPv6"@) is Some
    } else if name == "action_log"@ {
        log_cfg(m0) is Some
    } else if name == "action_nftBan"@ {
        ban_cfg(m0, "nftSetIPv4"@, "nftSetIPv6"@) is Some
    } else if name == "action_noop"@ {
        true
    } else if name == "filter_equals"@ {
        equals_cfg(m0) is Some
    } else {
        false
    }
}

/// Which module a name and arguments build.
pub open spec fn spec_module_built(name: Seq<char>, m0: Map<Seq<char>, ValueView>, m: Module) -> bool {
    if name == "action_counterRaise"@ {
        m is CounterRaise && counter_cfg(m0, "keepSeconds"@) == Some(m->CounterRaise_0.cfg())
    } else if name == "action_counterReset"@ {
        m is CounterReset && counter_cfg(m0, "graceSeconds"@) == Some(m->CounterReset_0.cfg())
    } else if name == "action_dnatCapture"@ {
        m is DnatCapture && capture_cfg(m0) == Some(m->DnatCapture_0.cfg())
    } else if name == "action_dnatReplace"@ {
        m is DnatReplace && crate::actions::replace_cfg(m0) == Some(m->DnatReplace_0.cfg())
    } else if name == "action_email"@ {
        m is Email && email_cfg(m0) == Some(m->Email_0.cfg())
    } else if name == "action_ipsetBan"@ {
        m is NetfilterBan && ban_cfg(m0, "ipSetIPv4"@, "ipSetIPv6"@) == Some(m->NetfilterBan_0.cfg())
            && m->NetfilterBan_0.spec_flavor() == NfFlavor::Ipset
    } else if name == "action_log"@ {
        m is Log && log_cfg(m0) == Some(m->Log_0.cfg())
    } else if name == "action_nftBan"@ {
        m is NetfilterBan && ban_cfg(m0, "nftSetIPv4"@, "nftSetIPv6"@) == Some(m->NetfilterBan_0.cfg())
            && m->NetfilterBan_0.spec_flavor() == NfFlavor::Nft
    } else if name == "action_noop"@ {
        m is Noop
    } else if name == "filter_equals"@ {
        m is Equals && equals_cfg(m0) == Some(m->Equals_0.cfg())
    } else {
        false
    }
}

impl Module {
    /// The one filter module answers false without erring; every other
    /// module is an action.
    pub open spec fn is_filter(self) -> bool {
        self is Equals
    }

    pub open spec fn wf(self) -> bool {
        match self {
            Module::Log(l) => l.wf(),
            Module::Email(e) => e.wf(),
            _ => true,
        }
    }

    /// Builds the module registered under a name from its declared
    /// arguments; an unknown name or rejected arguments give an error.
    pub fn new(name: &str, args: ModuleArgs) -> (r: Result<Module, Error>)
        requires
            args.wf(),
        ensures
            match r {
                Ok(m) => m.wf() && spec_module_built(name@, args@, m),
                Err(_) => !spec_module_ok(name@, args@),
            },
    {
        if str_eq(name, "action_counterRaise") {
            match CounterRaise::from_args(args) {
                Ok(a) => Ok(Module::CounterRaise(a)),
                Err(e) => Err(e),
            }
        } else if str_eq(name, "action_counterReset") {
            match CounterReset::from_args(args) {
                Ok(a) => Ok(Module::CounterReset(a)),
                Err(e) => Err(e),
            }
        } else if str_eq(name, "action_dnatCapture") {
            match DnatCapture::from_args(args) {
                Ok(a) => Ok(Module::DnatCapture(a)),
                Err(e) => Err(e),
            }
        } else if str_eq(name, "action_dnatReplace") {
            match DnatReplace::from_args(args) {
                Ok(a) => Ok(Module::DnatReplace(a)),
                Err(e) => Err(e),
            }
        } else if str_eq(name, "action_email") {
            match Email::from_args(args) {
                Ok(a) => Ok(Module::Email(a)),
                Err(e) => Err(e),
            }
        } else if str_eq(name, "action_ipsetBan") {
            match NetfilterBan::from_args(args, "action_ipsetBan", "ipSetIPv4", "ipSetIPv6", NfFlavor::Ipset) {
                Ok(a) => Ok(Module::NetfilterBan(a)),
                Err(e) => Err(e),
            }
        } else if str_eq(name, "action_log") {
            match Log::from_args(args) {
                Ok(a) => Ok(Module::Log(a)),
                Err(e) => Err(e),
            }
        } else if str_eq(name, "action_nftBan") {
            match NetfilterBan::from_args(args, "action_nftBan", "nftSetIPv4", "nftSetIPv6", NfFlavor::Nft) {
                Ok(a) => Ok(Module::NetfilterBan(a)),
                Err(e) => Err(e),
            }
        } else if str_eq(name, "action_noop") {
            Ok(Module::Noop(Noop::from_args(args)))
        } else if str_eq(name, "filter_equals") {
            match Equals::from_args(args) {
                Ok(f) => Ok(Module::Equals(f)),
                Err(e) => Err(e),
            }
        } else {
            let mut m: String = String::from_str("Module ");
            m.append(name);
            m.append(" does not exist");
            Err(Error::new(m))
        }
    }

    /// Runs the module on a record: a filter answers its verdict, an
    /// action answers true on success, and an action's failure is passed
    /// on. What each module does to the record and the stores is stated by
    /// [`module_outcome`].
    pub fn run<L: LogPort, M: EmailPort, B: NetfilterBackendPort, S: NetfilterStoragePort>(
        &self,
        record: &mut Record,
        engine: &mut Engine<L, M, B, S>,
        now: i64,
    ) -> (r: Result<bool, Error>)
        requires
            old(record).wf(),
            old(engine).wf(),
            self.wf(),
        ensures
            final(record).wf(),
            final(engine).wf(),
            module_outcome(
                *self,
                old(record)@,
                final(record)@,
                old(engine).counters@,
                final(engine).counters@,
                old(engine).dnat@,
                final(engine).dnat@,
                now as int,
                r,
            ),
    {
        match self {
            Module::CounterRaise(a) => {
                match a.act(record, &mut engine.counters, now) {
                    Ok(_) => Ok(true),
                    Err(e) => Err(e),
                }
            },
            Module::CounterReset(a) => {
                match a.act(record, &mut engine.counters, now) {
                    Ok(_) => Ok(true),
                    Err(e) => Err(e),
                }
            },
            Module::DnatCapture(a) => {
                match a.act(record, &mut engine.dnat, now) {
                    Ok(_) => Ok(true),
                    Err(e) => Err(e),
                }
            },
            Module::DnatReplace(a) => {
                match a.act(record, &mut engine.dnat, now) {
                    Ok(_) => Ok(true),
                    Err(e) => Err(e),
                }
            },
            Module::Email(a) => {
                match a.act(record, &mut engine.mailer) {
                    Ok(_) => Ok(true),
                    Err(e) => Err(e),
                }
            },
            Module::Log(a) => {
                match a.act(record, &mut engine.logger) {
                    Ok(_) => Ok(true),
                    Err(e) => Err(e),
                }
            },
            Module::NetfilterBan(a) => {
                let res = if a.flavor_is_ipset() {
                    a.act(record, &mut engine.ipset_backend, &mut engine.ipset_storage, now)
                } else {
                    a.act(record, &mut engine.nft_backend, &mut engine.nft_storage, now)
                };
                match res {
                    Ok(_) => Ok(true),
                    Err(e) => Err(e),
                }
            },
            Module::Noop(a) => {
                match a.act(record) {
                    Ok(_) => Ok(true),
                    Err(e) => Err(e),
                }
            },
            Module::Equals(f) => Ok(f.filter(record)),
        }
    }
}

/// What one module run does, over the models of the record, the counter
/// store and the mapping cache; the ports' own state is outside the
/// library's model.
pub open spec fn module_outcome(
    m: Module,
    rec0: Map<Seq<char>, ValueView>,
    rec1: Map<Seq<char>, ValueView>,
    cs0: Map<CKey, CData>,
    cs1: Map<CKey, CData>,
    dn0: Seq<DnatMappingView>,
    dn1: Seq<DnatMappingView>,
    now: int,
    r: Result<bool, Error>,
) -> bool {
    match m {
        Module::CounterRaise(a) => dn1 == dn0 && raise_outcome(a.cfg(), rec0, rec1, cs0, cs1, now, r),
        Module::CounterReset(a) => dn1 == dn0 && reset_outcome(a.cfg(), rec0, rec1, cs0, cs1, now, r),
        Module::DnatCapture(a) => cs1 == cs0 && rec1 == rec0 && capture_outcome(a.cfg(), rec0, dn0, dn1, now)
            && r == Ok::<bool, Error>(true),
        Module::DnatReplace(a) => cs1 == cs0 && replace_outcome(a.cfg(), rec0, rec1, dn0, dn1, now)
            && r == Ok::<bool, Error>(true),
        Module::Email(_) => cs1 == cs0 && dn1 == dn0 && rec1 == rec0 && (r is Err || r == Ok::<
            bool,
            Error,
        >(true)),
        Module::Log(_) => cs1 == cs0 && dn1 == dn0 && rec1 == rec0 && (r is Err || r == Ok::<
            bool,
            Error,
        >(true)),
        Module::NetfilterBan(a) => cs1 == cs0 && dn1 == dn0 && rec1 == rec0 && (r is Err || r
            == Ok::<bool, Error>(true)) && (!(rec0.contains_key(a.cfg().field) && rec0[a.cfg().field]
            is Str) ==> r == Ok::<bool, Error>(true)),
        Module::Noop(_) => cs1 == cs0 && dn1 == dn0 && rec1 == rec0 && r == Ok::<bool, Error>(true),
        Module::Equals(f) => cs1 == cs0 && dn1 == dn0 && rec1 == rec0 && r == Ok::<bool, Error>(
            rec0.contains_key(f.cfg().field) && rec0[f.cfg().field] == f.cfg().value,
        ),
    }
}

/// The raise action's outcome: on success the counter was augmented by one
/// and the count saved; it fails exactly when the key field is missing.
pub open spec fn raise_outcome(
    cfg: CounterCfg,
    rec0: Map<Seq<char>, ValueView>,
    rec1: Map<Seq<char>, ValueView>,
    cs0: Map<CKey, CData>,
    cs1: Map<CKey, CData>,
    now: int,
    r: Result<bool, Error>,
) -> bool {
    match r {
        Ok(b) => b == true && rec0.contains_key(cfg.key) && ({
            let res = spec_augment(
                cs0,
                (cfg.name, rec0[cfg.key]),
                (
                    1,
                    match cfg.duration {
                        Some(d) => Some(crate::clock::sat_add(now, d)),
                        None => None,
                    },
                ),
                now,
            );
            cs1 == res.0 && rec1 == saved_record(rec0, cfg.save, res.1)
        }),
        Err(_) => !rec0.contains_key(cfg.key) && rec1 == rec0 && cs1 == cs0,
    }
}

/// The reset action's outcome: on success the counter was reset and zero
/// saved; it fails exactly when the key field is missing.
pub open spec fn reset_outcome(
    cfg: CounterCfg,
    rec0: Map<Seq<char>, ValueView>,
    rec1: Map<Seq<char>, ValueView>,
    cs0: Map<CKey, CData>,
    cs1: Map<CKey, CData>,
    now: int,
    r: Result<bool, Error>,
) -> bool {
    match r {
        Ok(b) => b == true && rec0.contains_key(cfg.key) && cs1 == spec_reset(
            cs0,
            (cfg.name, rec0[cfg.key]),
            match cfg.duration {
                Some(d) => Some(crate::clock::sat_add(now, d)),
                None => None,
            },
            now,
        ) && rec1 == saved_record(rec0, cfg.save, 0),
        Err(_) => !rec0.contains_key(cfg.key) && rec1 == rec0 && cs1 == cs0,
    }
}

/// The capture action's outcome: when the source and internal addresses
/// resolve, the purged cache gains the observed mapping; otherwise the
/// cache is untouched.
pub open spec fn capture_outcome(
    cfg: CaptureCfg,
    rec0: Map<Seq<char>, ValueView>,
    dn0: Seq<DnatMappingView>,
    dn1: Seq<DnatMappingView>,
    now: int,
) -> bool {
    let sa = spec_value_for(cfg.src_addr, rec0);
    let ia = spec_value_for(cfg.internal_addr, rec0);
    if sa is None || ia is None {
        dn1 == dn0
    } else {
        dn1 == purge_view(dn0, now).push(captured_mapping(cfg, rec0, now))
    }
}

/// The replace action's outcome: with every matcher field present, the
/// first agreeing cached mapping writes the updaters into the record; the
/// cache is purged by the lookup.
pub open spec fn replace_outcome(
    cfg: ReplaceCfg,
    rec0: Map<Seq<char>, ValueView>,
    rec1: Map<Seq<char>, ValueView>,
    dn0: Seq<DnatMappingView>,
    dn1: Seq<DnatMappingView>,
    now: int,
) -> bool {
    let purged = purge_view(dn0, now);
    if exists|k: int|
        0 <= k < cfg.matchers.len() && !rec0.contains_key((#[trigger] cfg.matchers[k]).0) {
        rec1 == rec0 && dn1 == dn0
    } else {
        dn1 == purged && match first_match_from(purged, cfg.matchers, rec0, 0) {
            Some(k) => rec1 == apply_updaters(rec0, purged[k], cfg.updaters, 0),
            None => rec1 == rec0,
        }
    }
}

} // verus!
