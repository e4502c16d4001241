use crate::error::Error;
use crate::text::i64_to_dec;
use crate::text::int_str;
use crate::text::str_eq;
use vstd::prelude::*;

verus! {

/// One persistent ban record: the banned address, the kernel set it sits
/// in, and when the ban ends (`None` for a ban without an end).
#[derive(Debug, PartialEq, Eq)]
pub struct Ban {
    pub ip: String,
    pub nf_set: String,
    pub ban_until: Option<i64>,
}

/// Model of a ban record.
pub struct BanView {
    pub ip: Seq<char>,
    pub nf_set: Seq<char>,
    pub ban_until: Option<int>,
}

impl View for Ban {
    type V = BanView;

    open spec fn view(&self) -> BanView {
        BanView {
            ip: self.ip@,
            nf_set: self.nf_set@,
            ban_until: match self.ban_until {
                Some(t) => Some(t as int),
                None => None,
            },
        }
    }
}

impl Clone for Ban {
    /// A copy with the same model.
    fn clone(&self) -> (r: Ban)
        ensures
            r@ == self@,
    {
        Ban { ip: self.ip.clone(), nf_set: self.nf_set.clone(), ban_until: self.ban_until }
    }
}

/// A ban still in force at `now`: no end, or an end still ahead.
pub open spec fn ban_live(b: BanView, now: int) -> bool {
    match b.ban_until {
        Some(t) => t > now,
        None => true,
    }
}

/// Whether a record is the one for `(nf_set, ip)`.
pub open spec fn ban_matches(b: BanView, nf_set: Seq<char>, ip: Seq<char>) -> bool {
    b.ip == ip && b.nf_set == nf_set
}

pub open spec fn bans_view(s: Seq<Ban>) -> Seq<BanView> {
    Seq::new(s.len(), |i: int| s[i]@)
}

/// The records that survive a store: still in force, and not the one being
/// replaced; order kept.
pub open spec fn ban_filter(s: Seq<BanView>, nf_set: Seq<char>, ip: Seq<char>, now: int) -> Seq<
    BanView,
>
    decreases s,
{
    if s.len() == 0 {
        s
    } else {
        let p = ban_filter(s.drop_last(), nf_set, ip, now);
        if ban_live(s.last(), now) && !ban_matches(s.last(), nf_set, ip) {
            p.push(s.last())
        } else {
            p
        }
    }
}

/// The stored list after a ban is written: survivors, then the new record.
pub open spec fn reconciled(
    s: Seq<BanView>,
    nf_set: Seq<char>,
    ip: Seq<char>,
    ban_until: Option<int>,
    now: int,
) -> Seq<BanView> {
    ban_filter(s, nf_set, ip, now).push(BanView { ip, nf_set, ban_until })
}

/// Whether a still-in-force record for `(nf_set, ip)` was present.
pub open spec fn had_match(s: Seq<BanView>, nf_set: Seq<char>, ip: Seq<char>, now: int) -> bool {
    exists|i: int|
        0 <= i < s.len() && ban_live(#[trigger] s[i], now) && ban_matches(s[i], nf_set, ip)
}

/// No survivor of the filter is the record being replaced, and each is
/// still in force.
pub proof fn lemma_ban_filter(s: Seq<BanView>, nf_set: Seq<char>, ip: Seq<char>, now: int)
    ensures
        forall|j: int|
            0 <= j < ban_filter(s, nf_set, ip, now).len() ==> ban_live(
                #[trigger] ban_filter(s, nf_set, ip, now)[j],
                now,
            ) && !ban_matches(ban_filter(s, nf_set, ip, now)[j], nf_set, ip),
    decreases s,
{
    if s.len() > 0 {
        lemma_ban_filter(s.drop_last(), nf_set, ip, now);
        let p = ban_filter(s.drop_last(), nf_set, ip, now);
        let t = ban_filter(s, nf_set, ip, now);
        assert forall|j: int| 0 <= j < t.len() implies ban_live(#[trigger] t[j], now)
            && !ban_matches(t[j], nf_set, ip) by {
            if j < p.len() {
                assert(t[j] == p[j]);
            }
        }
    }
}

/// After a store, exactly one record for `(nf_set, ip)` remains — the new
/// one, in the last place — and every other record is still in force.
pub proof fn lemma_store_dedup(
    s: Seq<BanView>,
    nf_set: Seq<char>,
    ip: Seq<char>,
    ban_until: Option<int>,
    now: int,
)
    ensures
        ({
            let t = reconciled(s, nf_set, ip, ban_until, now);
            &&& t.len() >= 1
            &&& ban_matches(t[t.len() - 1], nf_set, ip)
            &&& t[t.len() - 1].ban_until == ban_until
            &&& forall|j: int| 0 <= j < t.len() - 1 ==> !ban_matches(#[trigger] t[j], nf_set, ip)
            &&& forall|j: int| 0 <= j < t.len() - 1 ==> ban_live(#[trigger] t[j], now)
        }),
{
    lemma_ban_filter(s, nf_set, ip, now);
}

/// Drops the expired records and any record for `(nf_set, ip)`, appends the
/// new record, and reports whether a still-in-force record for `(nf_set,
/// ip)` was there. The persistent-file adapter wraps this with its reads
/// and writes.
pub fn reconcile_bans(bans: Vec<Ban>, nf_set: &str, ip: &str, ban_until: Option<i64>, now: i64) -> (r: (
    Vec<Ban>,
    bool,
))
    ensures
        bans_view(r.0@) == reconciled(
            bans_view(bans@),
            nf_set@,
            ip@,
            match ban_until {
                Some(t) => Some(t as int),
                None => None,
            },
            now as int,
        ),
        r.1 == had_match(bans_view(bans@), nf_set@, ip@, now as int),
{
    let ghost s = bans_view(bans@);
    let mut out: Vec<Ban> = Vec::new();
    let mut found: bool = false;
    let mut i: usize = 0;
    while i < bans.len()
        invariant
            i <= bans@.len(),
            s == bans_view(bans@),
            bans_view(out@) == ban_filter(s.subrange(0, i as int), nf_set@, ip@, now as int),
            found == exists|j: int|
                0 <= j < i && ban_live(#[trigger] s[j], now as int) && ban_matches(
                    s[j],
                    nf_set@,
                    ip@,
                ),
        decreases bans@.len() - i,
    {
        let ghost pre = s.subrange(0, i as int);
        let ghost e = s[i as int];
        proof {
            assert(s.subrange(0, i + 1) =~= pre.push(e));
            assert(pre.push(e).drop_last() =~= pre);
            assert(pre.push(e).last() == e);
        }
        let live: bool = match bans[i].ban_until {
            Some(t) => t > now,
            None => true,
        };
        let matches: bool = str_eq(bans[i].ip.as_str(), ip) && str_eq(
            bans[i].nf_set.as_str(),
            nf_set,
        );
        if live && !matches {
            let b: Ban = bans[i].clone();
            out.push(b);
            proof {
                assert(bans_view(out@) =~= ban_filter(pre, nf_set@, ip@, now as int).push(e));
            }
        }
        if live && matches {
            found = true;
        }
        proof {
            if found && !(live && matches) {
                let j = choose|j: int|
                    0 <= j < i && ban_live(#[trigger] s[j], now as int) && ban_matches(
                        s[j],
                        nf_set@,
                        ip@,
                    );
                assert(0 <= j < i + 1 && ban_live(s[j], now as int) && ban_matches(
                    s[j],
                    nf_set@,
                    ip@,
                ));
            }
        }
        i = i + 1;
    }
    proof {
        assert(s.subrange(0, bans@.len() as int) =~= s);
    }
    let new_ban = Ban { ip: ip.to_owned(), nf_set: nf_set.to_owned(), ban_until };
    let ghost mid = out@;
    out.push(new_ban);
    proof {
        assert(bans_view(out@) =~= bans_view(mid).push(
            BanView {
                ip: ip@,
                nf_set: nf_set@,
                ban_until: match ban_until {
                    Some(t) => Some(t as int),
                    None => None,
                },
            },
        ));
    }
    (out, found)
}

/// The port to the kernel filter engine; the subprocess adapters (ipset,
/// nft) live outside the library.
pub trait NetfilterBackendPort {
    fn set_ban(&mut self, nf_set: &str, ip: &str, ban_until: Option<i64>, now: i64) -> Result<
        (),
        Error,
    >;

    fn cancel_ban(&mut self, nf_set: &str, ip: &str) -> Result<(), Error>;
}

/// The port to the durable ban list; the file adapter lives outside the
/// library.
pub trait NetfilterStoragePort {
    fn store_and_remove_obsoletes(
        &mut self,
        nf_set: &str,
        ip: &str,
        ban_until: Option<i64>,
        now: i64,
    ) -> Result<bool, Error>;
}

/// A ban list kept in memory, with the same reconciliation as the file.
pub struct InMemoryNetfilterStorage {
    bans: Vec<Ban>,
}

impl InMemoryNetfilterStorage {
    pub fn new() -> (r: InMemoryNetfilterStorage)
        ensures
            r@ == Seq::<BanView>::empty(),
    {
        let r = InMemoryNetfilterStorage { bans: Vec::new() };
        proof {
            assert(r@ =~= Seq::<BanView>::empty());
        }
        r
    }

    /// Preloads one record, appended to the list.
    pub fn push(&mut self, ban: Ban)
        ensures
            final(self)@ == old(self)@.push(ban@),
    {
        self.bans.push(ban);
        proof {
            assert(self@ =~= old(self)@.push(ban@));
        }
    }

    /// The number of stored records.
    pub fn len(&self) -> (r: usize)
        ensures
            r == self@.len(),
    {
        self.bans.len()
    }

    /// The record at a position.
    pub fn at(&self, i: usize) -> (r: &Ban)
        requires
            i < self@.len(),
        ensures
            r@ == self@[i as int],
    {
        &self.bans[i]
    }

    /// Stores a ban: drops expired records and the record being replaced,
    /// appends the new one, and says whether one was replaced.
    pub fn store(&mut self, nf_set: &str, ip: &str, ban_until: Option<i64>, now: i64) -> (r: bool)
        ensures
            final(self)@ == reconciled(
                old(self)@,
                nf_set@,
                ip@,
                match ban_until {
                    Some(t) => Some(t as int),
                    None => None,
                },
                now as int,
            ),
            r == had_match(old(self)@, nf_set@, ip@, now as int),
    {
        let mut bans: Vec<Ban> = Vec::new();
        core::mem::swap(&mut bans, &mut self.bans);
        let (out, found) = reconcile_bans(bans, nf_set, ip, ban_until, now);
        self.bans = out;
        found
    }
}

impl View for InMemoryNetfilterStorage {
    type V = Seq<BanView>;

    closed spec fn view(&self) -> Seq<BanView> {
        bans_view(self.bans@)
    }
}

impl NetfilterStoragePort for InMemoryNetfilterStorage {
    fn store_and_remove_obsoletes(
        &mut self,
        nf_set: &str,
        ip: &str,
        ban_until: Option<i64>,
        now: i64,
    ) -> Result<bool, Error> {
        Ok(self.store(nf_set, ip, ban_until, now))
    }
}

/// The remaining whole seconds of a ban, as the backends pass them on.
pub open spec fn timeout_str(ban_until: int, now: int) -> Seq<char> {
    int_str(ban_until - now)
}

/// The argument list of an ipset ban: `add <set> <ip>`, with `timeout <s>`
/// appended when the ban has an end.
pub fn ipset_ban_args(nf_set: &str, ip: &str, ban_until: Option<i64>, now: i64) -> (r: Vec<String>)
    requires
        match ban_until {
            Some(t) => i64::MIN <= t - now <= i64::MAX,
            None => true,
        },
    ensures
        match ban_until {
            Some(t) => r@.len() == 5 && r@[0]@ == "add"@ && r@[1]@ == nf_set@ && r@[2]@ == ip@
                && r@[3]@ == "timeout"@ && r@[4]@ == timeout_str(t as int, now as int),
            None => r@.len() == 3 && r@[0]@ == "add"@ && r@[1]@ == nf_set@ && r@[2]@ == ip@,
        },
{
    let mut args: Vec<String> = Vec::new();
    args.push(String::from_str("add"));
    args.push(nf_set.to_owned());
    args.push(ip.to_owned());
    match ban_until {
        Some(t) => {
            args.push(String::from_str("timeout"));
            args.push(i64_to_dec(t - now));
        },
        None => {},
    }
    args
}

/// The argument list of an ipset unban: `del <set> <ip>`.
pub fn ipset_unban_args(nf_set: &str, ip: &str) -> (r: Vec<String>)
    ensures
        r@.len() == 3 && r@[0]@ == "del"@ && r@[1]@ == nf_set@ && r@[2]@ == ip@,
{
    let mut args: Vec<String> = Vec::new();
    args.push(String::from_str("del"));
    args.push(nf_set.to_owned());
    args.push(ip.to_owned());
    args
}

/// The nft expression of a ban: `add element <set> {<ip>}`, with
/// ` timeout <s>s` inside the braces when the ban has an end.
pub fn nft_ban_command(nf_set: &str, ip: &str, ban_until: Option<i64>, now: i64) -> (r: String)
    requires
        match ban_until {
            Some(t) => i64::MIN <= t - now <= i64::MAX,
            None => true,
        },
    ensures
        r@ == "add element "@ + nf_set@ + " {"@ + ip@ + (match ban_until {
            Some(t) => " timeout "@ + timeout_str(t as int, now as int) + "s"@,
            None => Seq::<char>::empty(),
        }) + "}"@,
{
    let mut s: String = String::from_str("add element ");
    s.append(nf_set);
    s.append(" {");
    s.append(ip);
    match ban_until {
        Some(t) => {
            s.append(" timeout ");
            let secs = i64_to_dec(t - now);
            s.append(secs.as_str());
            s.append("s");
        },
        None => {},
    }
    s.append("}");
    proof {
        assert(s@ =~= "add element "@ + nf_set@ + " {"@ + ip@ + (match ban_until {
            Some(t) => " timeout "@ + timeout_str(t as int, now as int) + "s"@,
            None => Seq::<char>::empty(),
        }) + "}"@);
    }
    s
}

/// The nft expression of an unban: `delete element <set> {<ip>}`.
pub fn nft_unban_command(nf_set: &str, ip: &str) -> (r: String)
    ensures
        r@ == "delete element "@ + nf_set@ + " {"@ + ip@ + "}"@,
{
    let mut s: String = String::from_str("delete element ");
    s.append(nf_set);
    s.append(" {");
    s.append(ip);
    s.append("}");
    proof {
        assert(s@ =~= "delete element "@ + nf_set@ + " {"@ + ip@ + "}"@);
    }
    s
}

/// Reads the stored `timestamp` field: zero stands for a ban without an
/// end.
pub fn ban_until_from_timestamp(ts: i64) -> (r: Option<i64>)
    ensures
        ts == 0 ==> r is None,
        ts != 0 ==> r == Some(ts),
{
    if ts == 0 {
        None
    } else {
        Some(ts)
    }
}

/// Writes the `timestamp` field: a ban without an end is stored as zero.
pub fn timestamp_from_ban_until(ban_until: Option<i64>) -> (r: i64)
    ensures
        match ban_until {
            Some(t) => r == t,
            None => r == 0,
        },
{
    match ban_until {
        Some(t) => t,
        None => 0,
    }
}

} // verus!
