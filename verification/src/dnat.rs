use vstd::prelude::*;

verus! {

/// One observed DNAT rewrite: up to six address/port strings, kept until
/// `keep_until` (seconds since the Unix epoch).
#[derive(Debug, PartialEq, Eq)]
pub struct DnatMapping {
    pub src_addr: Option<String>,
    pub src_port: Option<String>,
    pub internal_addr: Option<String>,
    pub internal_port: Option<String>,
    pub dest_addr: Option<String>,
    pub dest_port: Option<String>,
    pub keep_until: i64,
}

/// Model of a mapping: strings as character sequences, the deadline as an
/// unbounded integer.
pub struct DnatMappingView {
    pub src_addr: Option<Seq<char>>,
    pub src_port: Option<Seq<char>>,
    pub internal_addr: Option<Seq<char>>,
    pub internal_port: Option<Seq<char>>,
    pub dest_addr: Option<Seq<char>>,
    pub dest_port: Option<Seq<char>>,
    pub keep_until: int,
}

pub open spec fn opt_str_view(o: Option<String>) -> Option<Seq<char>> {
    match o {
        Some(s) => Some(s@),
        None => None,
    }
}

impl View for DnatMapping {
    type V = DnatMappingView;

    open spec fn view(&self) -> DnatMappingView {
        DnatMappingView {
            src_addr: opt_str_view(self.src_addr),
            src_port: opt_str_view(self.src_port),
            internal_addr: opt_str_view(self.internal_addr),
            internal_port: opt_str_view(self.internal_port),
            dest_addr: opt_str_view(self.dest_addr),
            dest_port: opt_str_view(self.dest_port),
            keep_until: self.keep_until as int,
        }
    }
}

fn clone_opt_str(o: &Option<String>) -> (r: Option<String>)
    ensures
        opt_str_view(r) == opt_str_view(*o),
{
    match o {
        Some(s) => Some(s.clone()),
        None => None,
    }
}

impl Clone for DnatMapping {
    /// A copy with the same model.
    fn clone(&self) -> (r: DnatMapping)
        ensures
            r@ == self@,
    {
        DnatMapping {
            src_addr: clone_opt_str(&self.src_addr),
            src_port: clone_opt_str(&self.src_port),
            internal_addr: clone_opt_str(&self.internal_addr),
            internal_port: clone_opt_str(&self.internal_port),
            dest_addr: clone_opt_str(&self.dest_addr),
            dest_port: clone_opt_str(&self.dest_port),
            keep_until: self.keep_until,
        }
    }
}

pub open spec fn mappings_view(s: Seq<DnatMapping>) -> Seq<DnatMappingView> {
    Seq::new(s.len(), |i: int| s[i]@)
}

/// What remains of the cache once the mappings whose deadline has been
/// reached are dropped, in insertion order.
pub open spec fn purge_view(s: Seq<DnatMappingView>, now: int) -> Seq<DnatMappingView>
    decreases s,
{
    if s.len() == 0 {
        s
    } else {
        let p = purge_view(s.drop_last(), now);
        if s.last().keep_until <= now {
            p
        } else {
            p.push(s.last())
        }
    }
}

/// Every mapping the purge leaves has its deadline ahead of `now`: once a
/// `put` has run at `now`, nothing the cache hands out is expired.
pub proof fn lemma_purge_fresh(s: Seq<DnatMappingView>, now: int)
    ensures
        forall|j: int|
            0 <= j < purge_view(s, now).len() ==> #[trigger] purge_view(s, now)[j].keep_until
                > now,
    decreases s,
{
    if s.len() > 0 {
        lemma_purge_fresh(s.drop_last(), now);
    }
}

/// The append-only sliding window of observed DNAT mappings, purged of
/// expired entries on every access.
pub struct InMemoryDnatMappingsAdapter {
    mappings: Vec<DnatMapping>,
}

impl InMemoryDnatMappingsAdapter {
    pub fn new() -> (r: InMemoryDnatMappingsAdapter)
        ensures
            r@ == Seq::<DnatMappingView>::empty(),
    {
        let r = InMemoryDnatMappingsAdapter { mappings: Vec::new() };
        proof {
            assert(r@ =~= Seq::<DnatMappingView>::empty());
        }
        r
    }

    /// Drops every mapping whose deadline has been reached.
    fn purge(&mut self, now: i64)
        ensures
            final(self)@ == purge_view(old(self)@, now as int),
    {
        let mut out: Vec<DnatMapping> = Vec::new();
        let mut i: usize = 0;
        while i < self.mappings.len()
            invariant
                i <= self.mappings@.len(),
                mappings_view(out@) == purge_view(
                    mappings_view(self.mappings@).subrange(0, i as int),
                    now as int,
                ),
            decreases self.mappings@.len() - i,
        {
            let ghost pre = mappings_view(self.mappings@).subrange(0, i as int);
            let ghost e = self.mappings@[i as int]@;
            proof {
                assert(mappings_view(self.mappings@).subrange(0, i + 1) =~= pre.push(e));
                assert(pre.push(e).drop_last() =~= pre);
                assert(pre.push(e).last() == e);
            }
            if self.mappings[i].keep_until > now {
                let m: DnatMapping = self.mappings[i].clone();
                out.push(m);
                proof {
                    assert(mappings_view(out@) =~= purge_view(pre, now as int).push(e));
                }
            }
            i = i + 1;
        }
        proof {
            assert(mappings_view(self.mappings@).subrange(0, self.mappings@.len() as int)
                =~= mappings_view(self.mappings@));
        }
        self.mappings = out;
    }

    /// Purges, then appends the new observation. Duplicates are kept on
    /// purpose: each observation lives until its own deadline.
    pub fn put(&mut self, mapping: DnatMapping, now: i64)
        ensures
            final(self)@ == purge_view(old(self)@, now as int).push(mapping@),
    {
        self.purge(now);
        let ghost mid = self@;
        self.mappings.push(mapping);
        proof {
            assert(self@ =~= mid.push(mapping@));
        }
    }

    /// Purges, then returns copies of the remaining mappings in insertion
    /// order.
    pub fn get_all(&mut self, now: i64) -> (r: Vec<DnatMapping>)
        ensures
            final(self)@ == purge_view(old(self)@, now as int),
            mappings_view(r@) == final(self)@,
    {
        self.purge(now);
        let mut out: Vec<DnatMapping> = Vec::new();
        let mut i: usize = 0;
        while i < self.mappings.len()
            invariant
                i <= self.mappings@.len(),
                mappings_view(out@) == mappings_view(self.mappings@).subrange(0, i as int),
            decreases self.mappings@.len() - i,
        {
            let m: DnatMapping = self.mappings[i].clone();
            let ghost prev = out@;
            out.push(m);
            proof {
                assert(mappings_view(out@) =~= mappings_view(prev).push(
                    self.mappings@[i as int]@,
                ));
                assert(mappings_view(self.mappings@).subrange(0, i + 1) =~= mappings_view(
                    self.mappings@,
                ).subrange(0, i as int).push(self.mappings@[i as int]@));
            }
            i = i + 1;
        }
        proof {
            assert(mappings_view(self.mappings@).subrange(0, self.mappings@.len() as int)
                =~= mappings_view(self.mappings@));
        }
        out
    }

    /// The number of stored mappings.
    pub fn len(&self) -> (r: usize)
        ensures
            r == self@.len(),
    {
        self.mappings.len()
    }

}

impl View for InMemoryDnatMappingsAdapter {
    type V = Seq<DnatMappingView>;

    closed spec fn view(&self) -> Seq<DnatMappingView> {
        mappings_view(self.mappings@)
    }
}

} // verus!
