use crate::assoc::assoc_map;
use crate::assoc::distinct_keys;
use crate::assoc::lemma_assoc_at;
use crate::assoc::lemma_assoc_contains;
use crate::assoc::lemma_assoc_push_fresh;
use crate::assoc::lemma_assoc_remove;
use crate::assoc::lemma_assoc_update;
use crate::text::str_eq;
use crate::value::val_view;
use crate::value::value_eq;
use crate::value::Value;
use crate::value::ValueView;
use vstd::prelude::*;

verus! {

/// Names one counter entry: the counter's name and the key the counter is
/// kept for.
pub type CounterRef<'t> = (&'t str, &'t Value);

/// The state of one counter entry: its count and, optionally, the time at
/// which the entry expires.
pub type CounterData = (usize, Option<i64>);

/// Model key of a counter entry.
pub type CKey = (Seq<char>, ValueView);

/// Model state of a counter entry.
pub type CData = (nat, Option<int>);

pub open spec fn cdata_view(d: CounterData) -> CData {
    (
        d.0 as nat,
        match d.1 {
            Some(t) => Some(t as int),
            None => None,
        },
    )
}

/// An entry whose expiry has been reached is garbage.
pub open spec fn expired(d: CData, now: int) -> bool {
    match d.1 {
        Some(t) => t <= now,
        None => false,
    }
}

/// A counter at zero whose expiry lies ahead is in grace: it is preserved
/// and blocks `augment` until the expiry.
pub open spec fn in_grace(d: CData, now: int) -> bool {
    &&& d.0 == 0
    &&& match d.1 {
        Some(t) => t > now,
        None => false,
    }
}

/// The store after the garbage-collection pass that precedes every mutation.
pub open spec fn swept_map(m: Map<CKey, CData>, now: int) -> Map<CKey, CData> {
    Map::new(|k: CKey| m.contains_key(k) && !expired(m[k], now), |k: CKey| m[k])
}

/// How `augment` combines an existing entry with the supplied data: counts
/// add (saturating at the machine limit), and the later of the two expiries
/// wins; an expiry is never shortened.
pub open spec fn merged_data(cur: CData, d: CData) -> CData {
    let count: nat = if cur.0 + d.0 > usize::MAX {
        usize::MAX as nat
    } else {
        (cur.0 + d.0) as nat
    };
    let expiry: Option<int> = match (cur.1, d.1) {
        (Some(e), Some(w)) => if w > e {
            Some(w)
        } else {
            Some(e)
        },
        (None, Some(w)) => Some(w),
        (e, None) => e,
    };
    (count, expiry)
}

/// The store and the returned count after `set`.
pub open spec fn spec_set(m: Map<CKey, CData>, k: CKey, d: CData, now: int) -> (
    Map<CKey, CData>,
    nat,
) {
    (swept_map(m, now).insert(k, d), d.0)
}

/// The store and the returned count after `augment`.
pub open spec fn spec_augment(m: Map<CKey, CData>, k: CKey, d: CData, now: int) -> (
    Map<CKey, CData>,
    nat,
) {
    let m2 = swept_map(m, now);
    if !m2.contains_key(k) {
        (m2.insert(k, d), d.0)
    } else if in_grace(m2[k], now) {
        (m2, 0)
    } else {
        let nd = merged_data(m2[k], d);
        (m2.insert(k, nd), nd.0)
    }
}

/// The store after `reset`; the returned count is always zero.
pub open spec fn spec_reset(m: Map<CKey, CData>, k: CKey, grace: Option<int>, now: int) -> Map<
    CKey,
    CData,
> {
    let m2 = swept_map(m, now);
    match grace {
        Some(g) => {
            if m2.contains_key(k) && m2[k].0 == 0 && (match m2[k].1 {
                Some(e) => e > g,
                None => false,
            }) {
                m2
            } else {
                m2.insert(k, (0, Some(g)))
            }
        },
        None => {
            if m2.contains_key(k) && !(m2[k].0 == 0 && m2[k].1 is Some) {
                m2.remove(k)
            } else {
                m2
            }
        },
    }
}

/// Named, keyed counters with optional expiry and grace semantics. Every
/// mutating call first sweeps out the entries whose expiry has been reached.
pub struct Counters {
    entries: Vec<((String, Value), CounterData)>,
}

pub open spec fn centry_view(e: ((String, Value), CounterData)) -> (CKey, CData) {
    ((e.0.0@, val_view(e.0.1)), cdata_view(e.1))
}

pub open spec fn centries_view(s: Seq<((String, Value), CounterData)>) -> Seq<(CKey, CData)> {
    Seq::new(s.len(), |i: int| centry_view(s[i]))
}

/// What remains of an entry sequence once the expired entries are dropped.
pub open spec fn sweep_view(s: Seq<(CKey, CData)>, now: int) -> Seq<(CKey, CData)>
    decreases s,
{
    if s.len() == 0 {
        s
    } else {
        let p = sweep_view(s.drop_last(), now);
        if expired(s.last().1, now) {
            p
        } else {
            p.push(s.last())
        }
    }
}

pub proof fn lemma_sweep_view(s: Seq<(CKey, CData)>, now: int)
    requires
        distinct_keys(s),
    ensures
        distinct_keys(sweep_view(s, now)),
        assoc_map(sweep_view(s, now)) == swept_map(assoc_map(s), now),
        forall|j: int|
            0 <= j < sweep_view(s, now).len() ==> exists|i: int|
                0 <= i < s.len() && #[trigger] sweep_view(s, now)[j] == s[i],
        forall|j: int|
            0 <= j < sweep_view(s, now).len() ==> !expired(
                #[trigger] sweep_view(s, now)[j].1,
                now,
            ),
    decreases s,
{
    if s.len() > 0 {
        crate::assoc::lemma_distinct_prefix(s);
        lemma_sweep_view(s.drop_last(), now);
        let p = sweep_view(s.drop_last(), now);
        let t = sweep_view(s, now);
        assert forall|j: int| 0 <= j < p.len() implies exists|i: int|
            0 <= i < s.len() && #[trigger] p[j] == s[i] by {
            let i = choose|i: int|
                0 <= i < s.drop_last().len() && #[trigger] p[j] == s.drop_last()[i];
            assert(p[j] == s[i]);
        }
        lemma_assoc_contains(s.drop_last(), s.last().0);
        assert forall|i: int|
            0 <= i < s.drop_last().len() implies (#[trigger] s.drop_last()[i]).0 != s.last().0 by {
            assert(s[i].0 != s[s.len() - 1].0);
        }
        assert(!assoc_map(s.drop_last()).contains_key(s.last().0));
        if expired(s.last().1, now) {
            assert(assoc_map(t) =~= swept_map(assoc_map(s), now));
        } else {
            assert forall|a: int, b: int|
                0 <= a < b < t.len() implies (#[trigger] t[a]).0 != (#[trigger] t[b]).0 by {
                if b == t.len() - 1 {
                    let i = choose|i: int|
                        0 <= i < s.drop_last().len() && #[trigger] p[a] == s.drop_last()[i];
                    assert(s[i].0 != s[s.len() - 1].0);
                }
            }
            lemma_assoc_push_fresh(p, s.last().0, s.last().1);
            assert forall|i: int| 0 <= i < p.len() implies (#[trigger] p[i]).0 != s.last().0 by {
                let w = choose|w: int|
                    0 <= w < s.drop_last().len() && #[trigger] p[i] == s.drop_last()[w];
                assert(s[w].0 != s[s.len() - 1].0);
            }
            assert(assoc_map(t) =~= swept_map(assoc_map(s), now));
        }
    } else {
        assert(assoc_map(sweep_view(s, now)) =~= swept_map(assoc_map(s), now));
    }
}

impl Counters {
    /// The entries in order, as model pairs.
    pub closed spec fn entry_seq(self) -> Seq<(CKey, CData)> {
        centries_view(self.entries@)
    }

    /// Each (name, key) pair addresses at most one entry.
    pub open spec fn wf(self) -> bool {
        distinct_keys(self.entry_seq())
    }

    pub fn new() -> (r: Counters)
        ensures
            r.wf(),
            r@ == Map::<CKey, CData>::empty(),
    {
        let r = Counters { entries: Vec::new() };
        proof {
            assert(r.entry_seq() =~= Seq::<(CKey, CData)>::empty());
        }
        r
    }

    /// The index of the entry for `entry`, if any.
    fn find_idx(&self, entry: CounterRef) -> (r: Option<usize>)
        ensures
            match r {
                Some(i) => i < self.entry_seq().len() && self.entry_seq()[i as int].0 == (
                    entry.0@,
                    entry.1@,
                ),
                None => forall|j: int|
                    0 <= j < self.entry_seq().len() ==> self.entry_seq()[j].0 != (
                        entry.0@,
                        entry.1@,
                    ),
            },
    {
        let mut i: usize = 0;
        while i < self.entries.len()
            invariant
                i <= self.entries@.len(),
                self.entry_seq().len() == self.entries@.len(),
                forall|j: int|
                    0 <= j < self.entries@.len() ==> #[trigger] self.entry_seq()[j] == centry_view(
                        self.entries@[j],
                    ),
                forall|j: int| 0 <= j < i ==> self.entry_seq()[j].0 != (entry.0@, entry.1@),
            decreases self.entries@.len() - i,
        {
            if str_eq(self.entries[i].0.0.as_str(), entry.0) && value_eq(
                &self.entries[i].0.1,
                entry.1,
            ) {
                return Some(i);
            }
            i = i + 1;
        }
        None
    }

    /// The garbage-collection pass: drops every entry whose expiry has been
    /// reached.
    fn sweep(&mut self, now: i64)
        requires
            old(self).wf(),
        ensures
            final(self).wf(),
            final(self).entry_seq() == sweep_view(old(self).entry_seq(), now as int),
            final(self)@ == swept_map(old(self)@, now as int),
    {
        proof {
            lemma_sweep_view(self.entry_seq(), now as int);
        }
        let mut out: Vec<((String, Value), CounterData)> = Vec::new();
        let mut i: usize = 0;
        while i < self.entries.len()
            invariant
                i <= self.entries@.len(),
                centries_view(out@) == sweep_view(
                    centries_view(self.entries@).subrange(0, i as int),
                    now as int,
                ),
            decreases self.entries@.len() - i,
        {
            let keep: bool = match self.entries[i].1.1 {
                Some(t) => t > now,
                None => true,
            };
            let ghost pre = centries_view(self.entries@).subrange(0, i as int);
            let ghost e = centry_view(self.entries@[i as int]);
            proof {
                assert(centries_view(self.entries@).subrange(0, i + 1) =~= pre.push(e));
                assert(pre.push(e).drop_last() =~= pre);
                assert(pre.push(e).last() == e);
            }
            if keep {
                let name: String = self.entries[i].0.0.clone();
                let key: Value = self.entries[i].0.1.clone();
                let data: CounterData = self.entries[i].1;
                out.push(((name, key), data));
                proof {
                    assert(!expired(e.1, now as int));
                    assert(sweep_view(pre.push(e), now as int) == sweep_view(pre, now as int).push(
                        e,
                    ));
                    assert(centries_view(out@) =~= sweep_view(pre, now as int).push(e));
                }
            } else {
                proof {
                    assert(expired(e.1, now as int));
                    assert(sweep_view(pre.push(e), now as int) == sweep_view(pre, now as int));
                }
            }
            i = i + 1;
        }
        proof {
            assert(centries_view(self.entries@).subrange(0, self.entries@.len() as int)
                =~= centries_view(self.entries@));
        }
        self.entries = out;
    }

    /// Unconditionally replaces the entry with the supplied data, after the
    /// sweep; returns the stored count.
    pub fn set(&mut self, entry: CounterRef, data: CounterData, now: i64) -> (r: usize)
        requires
            old(self).wf(),
        ensures
            final(self).wf(),
            final(self)@ == spec_set(old(self)@, (entry.0@, entry.1@), cdata_view(data), now as int).0,
            r as nat == spec_set(old(self)@, (entry.0@, entry.1@), cdata_view(data), now as int).1,
    {
        self.sweep(now);
        self.put(entry, data);
        data.0
    }

    /// Inserts or replaces the entry for a key; no sweep, no other change.
    fn put(&mut self, entry: CounterRef, data: CounterData)
        requires
            old(self).wf(),
        ensures
            final(self).wf(),
            final(self)@ == old(self)@.insert((entry.0@, entry.1@), cdata_view(data)),
    {
        match self.find_idx(entry) {
            Some(i) => {
                proof {
                    lemma_assoc_update(
                        self.entry_seq(),
                        i as int,
                        (entry.0@, entry.1@),
                        cdata_view(data),
                    );
                }
                let (k, _d) = self.entries.remove(i);
                self.entries.push((k, data));
                proof {
                    assert(self.entry_seq() =~= old(self).entry_seq().remove(i as int).push(
                        ((entry.0@, entry.1@), cdata_view(data)),
                    ));
                }
            },
            None => {
                proof {
                    lemma_assoc_push_fresh(self.entry_seq(), (entry.0@, entry.1@), cdata_view(data));
                }
                let name: String = entry.0.to_owned();
                let key: Value = entry.1.clone();
                self.entries.push(((name, key), data));
                proof {
                    assert(self.entry_seq() =~= old(self).entry_seq().push(
                        ((entry.0@, entry.1@), cdata_view(data)),
                    ));
                }
            },
        }
    }

    /// Adds the supplied count to the entry, inserting it if absent; an
    /// entry in grace is left untouched and zero is returned. The stored
    /// expiry is never shortened.
    pub fn augment(&mut self, entry: CounterRef, data: CounterData, now: i64) -> (r: usize)
        requires
            old(self).wf(),
        ensures
            final(self).wf(),
            final(self)@ == spec_augment(
                old(self)@,
                (entry.0@, entry.1@),
                cdata_view(data),
                now as int,
            ).0,
            r as nat == spec_augment(
                old(self)@,
                (entry.0@, entry.1@),
                cdata_view(data),
                now as int,
            ).1,
    {
        self.sweep(now);
        let ghost k: CKey = (entry.0@, entry.1@);
        proof {
            lemma_assoc_contains(self.entry_seq(), k);
        }
        match self.find_idx(entry) {
            Some(i) => {
                proof {
                    lemma_assoc_at(self.entry_seq(), i as int);
                }
                let cur: CounterData = self.entries[i].1;
                let graced: bool = cur.0 == 0 && (match cur.1 {
                    Some(t) => t > now,
                    None => false,
                });
                if graced {
                    0
                } else {
                    let count: usize = if cur.0 > usize::MAX - data.0 {
                        usize::MAX
                    } else {
                        cur.0 + data.0
                    };
                    let expiry: Option<i64> = match (cur.1, data.1) {
                        (Some(e), Some(w)) => if w > e {
                            Some(w)
                        } else {
                            Some(e)
                        },
                        (None, Some(w)) => Some(w),
                        (e, None) => e,
                    };
                    self.put(entry, (count, expiry));
                    count
                }
            },
            None => {
                self.put(entry, data);
                data.0
            },
        }
    }

    /// Puts the entry into grace until `grace_until`, or deletes it when no
    /// grace is wanted — unless a farther grace is already stored. Returns
    /// zero.
    pub fn reset(&mut self, entry: CounterRef, grace_until: Option<i64>, now: i64) -> (r: usize)
        requires
            old(self).wf(),
        ensures
            final(self).wf(),
            final(self)@ == spec_reset(
                old(self)@,
                (entry.0@, entry.1@),
                match grace_until {
                    Some(g) => Some(g as int),
                    None => None,
                },
                now as int,
            ),
            r == 0,
    {
        self.sweep(now);
        let ghost k: CKey = (entry.0@, entry.1@);
        proof {
            lemma_assoc_contains(self.entry_seq(), k);
        }
        match grace_until {
            Some(g) => {
                let keep: bool = match self.find_idx(entry) {
                    Some(i) => {
                        proof {
                            lemma_assoc_at(self.entry_seq(), i as int);
                        }
                        let cur: CounterData = self.entries[i].1;
                        cur.0 == 0 && (match cur.1 {
                            Some(e) => e > g,
                            None => false,
                        })
                    },
                    None => false,
                };
                if !keep {
                    self.put(entry, (0, Some(g)));
                }
            },
            None => {
                match self.find_idx(entry) {
                    Some(i) => {
                        proof {
                            lemma_assoc_at(self.entry_seq(), i as int);
                        }
                        let cur: CounterData = self.entries[i].1;
                        let keep: bool = cur.0 == 0 && (match cur.1 {
                            Some(_) => true,
                            None => false,
                        });
                        if !keep {
                            let ghost pre_seq = self.entry_seq();
                            proof {
                                lemma_assoc_remove(pre_seq, i as int);
                            }
                            self.entries.remove(i);
                            proof {
                                assert(self.entry_seq() =~= pre_seq.remove(i as int));
                            }
                        }
                    },
                    None => {},
                }
            },
        }
        0
    }

    /// Reads the entry for a key, without sweeping.
    pub fn peek(&self, entry: CounterRef) -> (r: Option<CounterData>)
        requires
            self.wf(),
        ensures
            match r {
                Some(d) => self@.contains_key((entry.0@, entry.1@)) && cdata_view(d) == self@[(
                    entry.0@,
                    entry.1@,
                )],
                None => !self@.contains_key((entry.0@, entry.1@)),
            },
    {
        proof {
            lemma_assoc_contains(self.entry_seq(), (entry.0@, entry.1@));
        }
        match self.find_idx(entry) {
            Some(i) => {
                proof {
                    lemma_assoc_at(self.entry_seq(), i as int);
                }
                Some(self.entries[i].1)
            },
            None => None,
        }
    }

    /// The number of stored entries.
    pub fn len(&self) -> (r: usize)
        requires
            self.wf(),
        ensures
            r == self@.dom().len(),
    {
        proof {
            crate::assoc::lemma_assoc_len(self.entry_seq());
        }
        self.entries.len()
    }
}

impl View for Counters {
    type V = Map<CKey, CData>;

    open spec fn view(&self) -> Map<CKey, CData> {
        assoc_map(self.entry_seq())
    }
}

/// Augmenting an entry in grace changes nothing and yields zero: the
/// post-state still holds the zero count and the future expiry.
pub proof fn lemma_augment_in_grace(m: Map<CKey, CData>, k: CKey, d: CData, now: int)
    requires
        m.contains_key(k),
        in_grace(m[k], now),
    ensures
        spec_augment(m, k, d, now).0 == swept_map(m, now),
        spec_augment(m, k, d, now).0[k] == m[k],
        spec_augment(m, k, d, now).1 == 0,
{
    assert(!expired(m[k], now));
    assert(swept_map(m, now).contains_key(k));
}

/// Augmenting an entry that is present and not in grace leaves the later of
/// the stored and the supplied expiry — an expiry is never shortened — and
/// adds the counts, saturating at the machine limit.
pub proof fn lemma_augment_never_shortens(
    m: Map<CKey, CData>,
    k: CKey,
    d: CData,
    now: int,
    t1: int,
    t2: int,
)
    requires
        m.contains_key(k),
        !expired(m[k], now),
        !in_grace(m[k], now),
        m[k].1 == Some(t1),
        d.1 == Some(t2),
    ensures
        spec_augment(m, k, d, now).0[k].1 == Some(if t2 > t1 {
            t2
        } else {
            t1
        }),
        spec_augment(m, k, d, now).0[k].0 == (if m[k].0 + d.0 > usize::MAX {
            usize::MAX as nat
        } else {
            (m[k].0 + d.0) as nat
        }),
{
    assert(swept_map(m, now).contains_key(k));
    assert(swept_map(m, now)[k] == m[k]);
}

/// The other half of the expiry rule: when the entry is absent — or was
/// just swept because its stored expiry had been reached — the supplied
/// data is adopted as given, its expiry included.
pub proof fn lemma_augment_adopts_when_absent(m: Map<CKey, CData>, k: CKey, d: CData, now: int)
    requires
        !m.contains_key(k) || expired(m[k], now),
    ensures
        spec_augment(m, k, d, now).0[k] == d,
        spec_augment(m, k, d, now).1 == d.0,
{
    assert(!swept_map(m, now).contains_key(k));
}

/// After any mutating call whose supplied expiry (if any) lies ahead of
/// `now`, no entry with an expiry at or before `now` remains; and every
/// unexpired entry other than the targeted one is kept unchanged — the
/// sweep removes all and only the expired entries.
pub proof fn lemma_set_sweeps(m: Map<CKey, CData>, k: CKey, d: CData, now: int)
    requires
        !expired(d, now),
    ensures
        forall|k2: CKey| #[trigger]
            spec_set(m, k, d, now).0.contains_key(k2) ==> !expired(spec_set(m, k, d, now).0[k2], now),
        forall|k2: CKey|
            k2 != k && m.contains_key(k2) && !expired(#[trigger] m[k2], now) ==> spec_set(
                m,
                k,
                d,
                now,
            ).0.contains_key(k2) && spec_set(m, k, d, now).0[k2] == m[k2],
        forall|k2: CKey|
            k2 != k && #[trigger] spec_set(m, k, d, now).0.contains_key(k2) ==> m.contains_key(k2)
                && spec_set(m, k, d, now).0[k2] == m[k2],
{
}

/// See `lemma_set_sweeps`: the same sweep and frame guarantees for
/// `augment`.
pub proof fn lemma_augment_sweeps(m: Map<CKey, CData>, k: CKey, d: CData, now: int)
    requires
        !expired(d, now),
    ensures
        forall|k2: CKey| #[trigger]
            spec_augment(m, k, d, now).0.contains_key(k2) ==> !expired(
                spec_augment(m, k, d, now).0[k2],
                now,
            ),
        forall|k2: CKey|
            k2 != k && m.contains_key(k2) && !expired(#[trigger] m[k2], now) ==> spec_augment(
                m,
                k,
                d,
                now,
            ).0.contains_key(k2) && spec_augment(m, k, d, now).0[k2] == m[k2],
        forall|k2: CKey|
            k2 != k && #[trigger] spec_augment(m, k, d, now).0.contains_key(k2)
                ==> m.contains_key(k2) && spec_augment(m, k, d, now).0[k2] == m[k2],
{
}

/// See `lemma_set_sweeps`: the same sweep and frame guarantees for
/// `reset`, when the wanted grace (if any) lies ahead of `now`.
pub proof fn lemma_reset_sweeps(m: Map<CKey, CData>, k: CKey, grace: Option<int>, now: int)
    requires
        match grace {
            Some(g) => g > now,
            None => true,
        },
    ensures
        forall|k2: CKey| #[trigger]
            spec_reset(m, k, grace, now).contains_key(k2) ==> !expired(
                spec_reset(m, k, grace, now)[k2],
                now,
            ),
        forall|k2: CKey|
            k2 != k && m.contains_key(k2) && !expired(#[trigger] m[k2], now) ==> spec_reset(
                m,
                k,
                grace,
                now,
            ).contains_key(k2) && spec_reset(m, k, grace, now)[k2] == m[k2],
        forall|k2: CKey|
            k2 != k && #[trigger] spec_reset(m, k, grace, now).contains_key(k2)
                ==> m.contains_key(k2) && spec_reset(m, k, grace, now)[k2] == m[k2],
{
}

} // verus!

