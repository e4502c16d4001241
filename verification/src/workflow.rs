use crate::assoc::assoc_map;
use crate::assoc::distinct_keys;
use crate::assoc::lemma_assoc_at;
use crate::assoc::lemma_assoc_contains;
use crate::assoc::lemma_assoc_push_fresh;
use crate::assoc::lemma_assoc_remove;
use crate::assoc::lemma_assoc_update;
use crate::counter::CData;
use crate::counter::CKey;
use crate::dnat::opt_str_view;
use crate::dnat::DnatMappingView;
use crate::email::EmailPort;
use crate::error::Error;
use crate::log::LogPort;
use crate::modules::module_outcome;
use crate::modules::spec_module_built;
use crate::modules::spec_module_ok;
use crate::modules::Engine;
use crate::modules::Module;
use crate::netfilter::NetfilterBackendPort;
use crate::netfilter::NetfilterStoragePort;
use crate::record::ModuleArgs;
use crate::record::Record;
use crate::text::dec_str;
use crate::text::str_eq;
use crate::text::u64_to_dec;
use crate::value::ValueView;
use vstd::prelude::*;

verus! {

/// How a configuration names the module of a step: an action or a filter.
/// The parsing layer outside the library reads the `action`/`filter` keys
/// into this shape before handing the step over.
#[derive(Debug, PartialEq, Eq)]
pub enum StepType {
    Action(String),
    Filter(String),
}

/// One instruction of a chain: a module name, its arguments, and the
/// optional explicit continuations.
pub struct Step {
    pub module: String,
    pub args: ModuleArgs,
    pub then_dest: Option<String>,
    pub else_dest: Option<String>,
}

/// An ordered list of steps addressed by a name.
pub type Chain = Vec<Step>;

/// The declarative pipeline: the chains in source order — the order is
/// semantically significant — and the remaining top-level options.
pub struct Config {
    pub actions: Vec<(String, Chain)>,
    pub options: Record,
}

/// Model of a step.
pub struct StepView {
    pub module: Seq<char>,
    pub args: Map<Seq<char>, ValueView>,
    pub then_dest: Option<Seq<char>>,
    pub else_dest: Option<Seq<char>>,
}

impl View for Step {
    type V = StepView;

    open spec fn view(&self) -> StepView {
        StepView {
            module: self.module@,
            args: self.args@,
            then_dest: opt_str_view(self.then_dest),
            else_dest: opt_str_view(self.else_dest),
        }
    }
}

pub open spec fn chain_view(c: Seq<Step>) -> Seq<StepView> {
    Seq::new(c.len(), |i: int| c[i]@)
}

pub open spec fn actions_view(a: Seq<(String, Chain)>) -> Seq<(Seq<char>, Seq<StepView>)> {
    Seq::new(a.len(), |i: int| (a[i].0@, chain_view(a[i].1@)))
}

impl Config {
    /// Every step's arguments are well-formed records.
    pub open spec fn wf(self) -> bool {
        &&& self.options.wf()
        &&& forall|i: int, j: int|
            0 <= i < self.actions@.len() && 0 <= j < self.actions@[i].1@.len()
                ==> (#[trigger] self.actions@[i].1@[j]).args.wf()
    }
}

impl View for Config {
    type V = Seq<(Seq<char>, Seq<StepView>)>;

    open spec fn view(&self) -> Seq<(Seq<char>, Seq<StepView>)> {
        actions_view(self.actions@)
    }
}

/// How many steps of a chain are compiled: a step with an explicit `then`
/// becomes the last of its chain.
pub open spec fn cutoff(c: Seq<StepView>, j: int) -> int
    decreases c.len() - j,
    when 0 <= j
{
    if j >= c.len() {
        j
    } else if c[j].then_dest is Some {
        j + 1
    } else {
        cutoff(c, j + 1)
    }
}

pub proof fn lemma_cutoff_bounds(c: Seq<StepView>, j: int)
    requires
        0 <= j <= c.len(),
    ensures
        j <= cutoff(c, j) <= c.len(),
        j < c.len() ==> j + 1 <= cutoff(c, j),
    decreases c.len() - j,
{
    if j < c.len() && !(c[j].then_dest is Some) {
        lemma_cutoff_bounds(c, j + 1);
    }
}

/// While no step declared an explicit continuation, the cutoff lies ahead.
proof fn lemma_cutoff_prefix(c: Seq<StepView>, j: int, idx: int)
    requires
        0 <= j <= idx <= c.len(),
        forall|j2: int| 0 <= j2 < idx ==> (#[trigger] c[j2]).then_dest is None,
    ensures
        cutoff(c, j) == cutoff(c, idx),
    decreases idx - j,
{
    if j < idx {
        lemma_cutoff_prefix(c, j + 1, idx);
    }
}

/// The chain names, in source order.
pub open spec fn chain_names(v: Seq<(Seq<char>, Seq<StepView>)>) -> Seq<Seq<char>> {
    Seq::new(v.len(), |i: int| v[i].0)
}

/// Whether an explicit continuation points back at the chain being
/// compiled or an earlier one.
pub open spec fn back_ref(
    v: Seq<(Seq<char>, Seq<StepView>)>,
    i: int,
    dest: Option<Seq<char>>,
) -> bool {
    match dest {
        Some(nm) => exists|i2: int| 0 <= i2 <= i && (#[trigger] v[i2]).0 == nm,
        None => false,
    }
}

/// A configuration in which some compiled step's explicit continuation
/// names its own chain or an earlier one.
pub open spec fn config_cyclic(v: Seq<(Seq<char>, Seq<StepView>)>) -> bool {
    exists|i: int, j: int|
        0 <= i < v.len() && 0 <= j < cutoff(v[i].1, 0) && (back_ref(
            v,
            i,
            (#[trigger] v[i].1[j]).then_dest,
        ) || back_ref(v, i, v[i].1[j].else_dest))
}

/// Whether an explicit continuation names a chain defined later that has
/// at least one step.
pub open spec fn ref_resolvable(
    v: Seq<(Seq<char>, Seq<StepView>)>,
    i: int,
    dest: Option<Seq<char>>,
) -> bool {
    match dest {
        Some(nm) => exists|i2: int|
            i < i2 < v.len() && (#[trigger] v[i2]).0 == nm && v[i2].1.len() > 0,
        None => true,
    }
}

/// A configuration the builder is total on: chain names are distinct, some
/// chain has a step, every compiled step's module builds, and every
/// explicit continuation names a later, non-empty chain.
pub open spec fn config_buildable(v: Seq<(Seq<char>, Seq<StepView>)>) -> bool {
    &&& forall|i: int, j: int| 0 <= i < j < v.len() ==> (#[trigger] v[i]).0 != (#[trigger] v[j]).0
    &&& exists|i: int| 0 <= i < v.len() && (#[trigger] v[i]).1.len() > 0
    &&& forall|i: int, j: int|
        0 <= i < v.len() && 0 <= j < cutoff(v[i].1, 0) ==> spec_module_ok(
            (#[trigger] v[i].1[j]).module,
            v[i].1[j].args,
        )
    &&& forall|i: int, j: int|
        0 <= i < v.len() && 0 <= j < cutoff(v[i].1, 0) ==> ref_resolvable(
            v,
            i,
            (#[trigger] v[i].1[j]).then_dest,
        ) && ref_resolvable(v, i, v[i].1[j].else_dest)
}

/// How many nodes the chains before chain `i` compile to.
pub open spec fn node_base(v: Seq<(Seq<char>, Seq<StepView>)>, i: int) -> int
    decreases i,
    when 0 <= i
{
    if i <= 0 {
        0
    } else {
        node_base(v, i - 1) + cutoff(v[i - 1].1, 0)
    }
}

pub proof fn lemma_node_base_nonneg(v: Seq<(Seq<char>, Seq<StepView>)>, a: int)
    requires
        0 <= a <= v.len(),
    ensures
        node_base(v, a) >= 0,
    decreases a,
{
    if a > 0 {
        lemma_node_base_nonneg(v, a - 1);
        lemma_cutoff_bounds(v[a - 1].1, 0);
    }
}

pub proof fn lemma_node_base_bounds(v: Seq<(Seq<char>, Seq<StepView>)>, a: int, b: int)
    requires
        0 <= a <= b <= v.len(),
    ensures
        0 <= node_base(v, a) <= node_base(v, b),
    decreases b - a,
{
    lemma_node_base_nonneg(v, a);
    if a < b {
        lemma_node_base_bounds(v, a, b - 1);
        lemma_cutoff_bounds(v[b - 1].1, 0);
    }
}

/// The index of the chain carrying a name; single-valued when the names
/// are distinct.
pub open spec fn chain_index_of(v: Seq<(Seq<char>, Seq<StepView>)>, nm: Seq<char>) -> int {
    choose|i: int| 0 <= i < v.len() && (#[trigger] v[i]).0 == nm && v[i].1.len() > 0
}

/// The first chain after `i` with at least one step.
pub open spec fn next_nonempty(v: Seq<(Seq<char>, Seq<StepView>)>, i: int) -> Option<int>
    decreases v.len() - i,
    when 0 <= i
{
    if i + 1 >= v.len() {
        None
    } else if v[i + 1].1.len() > 0 {
        Some(i + 1)
    } else {
        next_nonempty(v, i + 1)
    }
}

pub proof fn lemma_next_nonempty(v: Seq<(Seq<char>, Seq<StepView>)>, i: int)
    requires
        0 <= i,
    ensures
        match next_nonempty(v, i) {
            Some(i2) => i < i2 < v.len() && v[i2].1.len() > 0 && (forall|i3: int|
                i < i3 < i2 ==> (#[trigger] v[i3]).1.len() == 0),
            None => forall|i3: int| i < i3 < v.len() ==> (#[trigger] v[i3]).1.len() == 0,
        },
    decreases v.len() - i,
{
    if i + 1 < v.len() && !(v[i + 1].1.len() > 0) {
        lemma_next_nonempty(v, i + 1);
    }
}

/// The display name of a compiled step: `chain[index]:module`.
pub open spec fn spec_node_name(v: Seq<(Seq<char>, Seq<StepView>)>, i: int, j: int) -> Seq<
    char,
> {
    v[i].0 + "["@ + dec_str(j as nat) + "]:"@ + v[i].1[j].module
}

/// Where a compiled step's success jump leads: an explicit `then` to the
/// named chain's first node; otherwise to the next step of the same chain,
/// or the terminal marker at the chain's end.
pub open spec fn spec_then_edge(v: Seq<(Seq<char>, Seq<StepView>)>, i: int, j: int) -> Option<
    int,
> {
    match v[i].1[j].then_dest {
        Some(nm) => Some(node_base(v, chain_index_of(v, nm))),
        None => if j + 1 < cutoff(v[i].1, 0) {
            Some(node_base(v, i) + j + 1)
        } else {
            None
        },
    }
}

/// Where a compiled step's failure jump leads: an explicit `else` to the
/// named chain's first node; otherwise to the first node of the next chain
/// that has a step, or the terminal marker if no such chain follows.
pub open spec fn spec_else_edge(v: Seq<(Seq<char>, Seq<StepView>)>, i: int, j: int) -> Option<
    int,
> {
    match v[i].1[j].else_dest {
        Some(nm) => Some(node_base(v, chain_index_of(v, nm))),
        None => match next_nonempty(v, i) {
            Some(i2) => Some(node_base(v, i2)),
            None => None,
        },
    }
}

/// The compiled graph a configuration determines: one node per compiled
/// step, in chain order, carrying the step's module, its display name, and
/// the jumps of the linking rules.
pub open spec fn compiled_graph(v: Seq<(Seq<char>, Seq<StepView>)>, ns: Seq<NodeView>) -> bool {
    &&& ns.len() == node_base(v, v.len() as int)
    &&& forall|i: int, j: int|
        0 <= i < v.len() && 0 <= j < cutoff(v[i].1, 0) ==> {
            let k = node_base(v, i) + j;
            &&& 0 <= k < ns.len()
            &&& spec_module_built((#[trigger] v[i].1[j]).module, v[i].1[j].args, ns[k].module)
            &&& ns[k].name == spec_node_name(v, i, j)
            &&& ns[k].then_dest == spec_then_edge(v, i, j)
            &&& ns[k].else_dest == spec_else_edge(v, i, j)
        }
}

/// Whether a chain of that name has started compiling: it lies before
/// `upto` and has a step.
pub open spec fn chain_started(v: Seq<(Seq<char>, Seq<StepView>)>, upto: int, nm: Seq<char>) -> bool {
    exists|i2: int| 0 <= i2 < upto && (#[trigger] v[i2]).0 == nm && v[i2].1.len() > 0
}

/// Whether a pair sits in the bucket under a key.
pub open spec fn parked_pair(
    m: Map<Option<Seq<char>>, Seq<(int, bool)>>,
    key: Option<Seq<char>>,
    k: int,
    is_then: bool,
) -> bool {
    m.contains_key(key) && exists|pi: int|
        0 <= pi < m[key].len() && #[trigger] m[key][pi] == (k, is_then)
}

/// No two chains share a name.
pub open spec fn distinct_names(v: Seq<(Seq<char>, Seq<StepView>)>) -> bool {
    forall|i: int, j: int| 0 <= i < j < v.len() ==> (#[trigger] v[i]).0 != (#[trigger] v[j]).0
}

/// A configuration with no step at all.
pub open spec fn config_empty(v: Seq<(Seq<char>, Seq<StepView>)>) -> bool {
    forall|i: int| 0 <= i < v.len() ==> (#[trigger] v[i]).1.len() == 0
}

/// `msg` begins with `p`.
pub open spec fn starts_with(msg: Seq<char>, p: Seq<char>) -> bool {
    p.len() <= msg.len() && msg.subrange(0, p.len() as int) == p
}

/// Whether an explicit continuation names a chain that nowhere has a step:
/// the reference can never resolve.
pub open spec fn dangling_dest(v: Seq<(Seq<char>, Seq<StepView>)>, dest: Option<Seq<char>>) -> bool {
    match dest {
        Some(nm) => forall|i2: int|
            0 <= i2 < v.len() ==> !((#[trigger] v[i2]).0 == nm && v[i2].1.len() > 0),
        None => false,
    }
}

/// Why a name may sit in the waiting table: some compiled step references
/// it, and no chain of that name with a step lies before the threshold.
pub open spec fn key_cause(v: Seq<(Seq<char>, Seq<StepView>)>, nm: Seq<char>, upto: int) -> bool {
    &&& exists|i: int, j: int|
        0 <= i < v.len() && 0 <= j < cutoff(v[i].1, 0) && ((#[trigger] v[i].1[j]).then_dest
            == Some(nm) || v[i].1[j].else_dest == Some(nm))
    &&& forall|i2: int| 0 <= i2 < upto ==> !((#[trigger] v[i2]).0 == nm && v[i2].1.len() > 0)
}

/// What a build failure reports, tied to its cause: the empty-configuration
/// error, a module that would not build, a configuration loop naming the
/// offending `chain[index]:module` site, or an incomplete configuration
/// with a reference that can never resolve.
pub open spec fn build_failure(v: Seq<(Seq<char>, Seq<StepView>)>, msg: Seq<char>) -> bool {
    ||| (msg == "A configuration must have at least one module."@ && config_empty(v))
    ||| (starts_with(msg, "Module "@) && exists|i: int, j: int|
        0 <= i < v.len() && 0 <= j < cutoff(v[i].1, 0) && !spec_module_ok(
            (#[trigger] v[i].1[j]).module,
            v[i].1[j].args,
        ))
    ||| (exists|i: int, j: int|
        0 <= i < v.len() && 0 <= j < cutoff(v[i].1, 0) && ((msg == "Configuration loop at "@
            + spec_node_name(v, i, j) + ":then"@ && back_ref(
            v,
            i,
            (#[trigger] v[i].1[j]).then_dest,
        )) || (msg == "Configuration loop at "@ + spec_node_name(v, i, j) + ":else"@ && back_ref(
            v,
            i,
            v[i].1[j].else_dest,
        ))))
    ||| (starts_with(msg, "Incomplete configuration:"@) && exists|i: int, j: int|
        0 <= i < v.len() && 0 <= j < cutoff(v[i].1, 0) && (dangling_dest(
            v,
            (#[trigger] v[i].1[j]).then_dest,
        ) || dangling_dest(v, v[i].1[j].else_dest)))
}

/// A step the builder has compiled by the time chain `ci` has done `idx`
/// steps.
pub open spec fn processed_step(
    v: Seq<(Seq<char>, Seq<StepView>)>,
    ci: int,
    idx: int,
    i: int,
    j: int,
) -> bool {
    &&& 0 <= i < v.len()
    &&& 0 <= j < cutoff(v[i].1, 0)
    &&& (i < ci || (i == ci && j < idx))
}

/// An edge that waits in the table under a name: an explicit continuation
/// of a compiled step to a chain that has not started.
pub open spec fn awaiting_named(
    v: Seq<(Seq<char>, Seq<StepView>)>,
    nm: Seq<char>,
    k: int,
    is_then: bool,
    upto: int,
    ci: int,
    idx: int,
) -> bool {
    &&& !chain_started(v, upto, nm)
    &&& exists|i: int, j: int|
        processed_step(v, ci, idx, i, j) && k == node_base(v, i) + j && (if is_then {
            (#[trigger] v[i].1[j]).then_dest
        } else {
            v[i].1[j].else_dest
        }) == Some(nm)
}

/// An edge that waits in the table under `None`: a fall-through else of a
/// compiled step after which no chain with a step has started yet.
pub open spec fn awaiting_none(
    v: Seq<(Seq<char>, Seq<StepView>)>,
    k: int,
    is_then: bool,
    upto: int,
    ci: int,
    idx: int,
) -> bool {
    &&& !is_then
    &&& exists|i: int, j: int|
        processed_step(v, ci, idx, i, j) && k == node_base(v, i) + j && (#[trigger] v[i].1[j]).else_dest
            is None && (match next_nonempty(v, i) {
            Some(i2) => i2 >= upto,
            None => true,
        })
}

/// The waiting table holds exactly the unresolved edges.
spec fn buckets_state_ok(
    v: Seq<(Seq<char>, Seq<StepView>)>,
    m: Map<Option<Seq<char>>, Seq<(int, bool)>>,
    upto: int,
    ci: int,
    idx: int,
) -> bool {
    &&& forall|nm: Seq<char>, k: int, it: bool| #[trigger]
        parked_pair(m, Some(nm), k, it) == awaiting_named(v, nm, k, it, upto, ci, idx)
    &&& forall|k: int, it: bool| #[trigger]
        parked_pair(m, None::<Seq<char>>, k, it) == awaiting_none(v, k, it, upto, ci, idx)
}

/// The compiled state of one step's node while the build runs: module and
/// name are final; an edge is either resolved to its place in the graph or
/// still the terminal marker while it waits.
spec fn step_state_ok(
    v: Seq<(Seq<char>, Seq<StepView>)>,
    nodes: Seq<Node>,
    upto: int,
    impl_lim: int,
    i: int,
    j: int,
) -> bool {
    let k = node_base(v, i) + j;
    let c = v[i].1;
    &&& 0 <= k < nodes.len()
    &&& spec_module_built(c[j].module, c[j].args, nodes[k].module)
    &&& nodes[k].name@ == spec_node_name(v, i, j)
    &&& match c[j].then_dest {
        Some(nm) => if chain_started(v, upto, nm) {
            edge_view(nodes[k].then_dest) == Some(node_base(v, chain_index_of(v, nm)))
        } else {
            nodes[k].then_dest is None
        },
        None => edge_view(nodes[k].then_dest) == (if j + 1 < impl_lim {
            Some(node_base(v, i) + j + 1)
        } else {
            None::<int>
        }),
    }
    &&& match c[j].else_dest {
        Some(nm) => if chain_started(v, upto, nm) {
            edge_view(nodes[k].else_dest) == Some(node_base(v, chain_index_of(v, nm)))
        } else {
            nodes[k].else_dest is None
        },
        None => match next_nonempty(v, i) {
            Some(i2) => if i2 < upto {
                edge_view(nodes[k].else_dest) == Some(node_base(v, i2))
            } else {
                nodes[k].else_dest is None
            },
            None => nodes[k].else_dest is None,
        },
    }
}

/// The compiled state of every step of the finished chains.
spec fn prefix_state_ok(
    v: Seq<(Seq<char>, Seq<StepView>)>,
    nodes: Seq<Node>,
    upto: int,
    ci: int,
) -> bool {
    forall|i: int, j: int|
        0 <= i < ci && 0 <= j < cutoff(v[i].1, 0) ==> #[trigger] step_state_ok(
            v,
            nodes,
            upto,
            cutoff(v[i].1, 0),
            i,
            j,
        )
}

/// Two compiled steps never share a node index.
pub proof fn lemma_flat_inj(
    v: Seq<(Seq<char>, Seq<StepView>)>,
    i1: int,
    j1: int,
    i2: int,
    j2: int,
)
    requires
        0 <= i1 < v.len(),
        0 <= j1 < cutoff(v[i1].1, 0),
        0 <= i2 < v.len(),
        0 <= j2 < cutoff(v[i2].1, 0),
        node_base(v, i1) + j1 == node_base(v, i2) + j2,
    ensures
        i1 == i2 && j1 == j2,
{
    if i1 < i2 {
        lemma_cutoff_bounds(v[i1].1, 0);
        lemma_node_base_bounds(v, i1 + 1, i2);
        assert(node_base(v, i1 + 1) == node_base(v, i1) + cutoff(v[i1].1, 0));
        assert(false);
    }
    if i2 < i1 {
        lemma_cutoff_bounds(v[i2].1, 0);
        lemma_node_base_bounds(v, i2 + 1, i1);
        assert(node_base(v, i2 + 1) == node_base(v, i2) + cutoff(v[i2].1, 0));
        assert(false);
    }
}

/// With distinct names, the chain index of a non-empty chain's name is
/// that chain.
pub proof fn lemma_chain_index_at(v: Seq<(Seq<char>, Seq<StepView>)>, i: int)
    requires
        distinct_names(v),
        0 <= i < v.len(),
        v[i].1.len() > 0,
    ensures
        chain_index_of(v, v[i].0) == i,
{
    assert(exists|i2: int|
        0 <= i2 < v.len() && (#[trigger] v[i2]).0 == v[i].0 && v[i2].1.len() > 0) by {
        assert(v[i].0 == v[i].0 && v[i].1.len() > 0);
    }
    let w = chain_index_of(v, v[i].0);
    if w != i {
        if w < i {
            assert(v[w].0 != v[i].0);
        } else {
            assert(v[i].0 != v[w].0);
        }
    }
}

/// When a chain with a step starts and nothing with a step lies between, it
/// is the next non-empty chain of everything before it.
pub proof fn lemma_next_nonempty_is(v: Seq<(Seq<char>, Seq<StepView>)>, i: int, ci: int)
    requires
        0 <= i < ci < v.len(),
        v[ci].1.len() > 0,
        match next_nonempty(v, i) {
            Some(i2) => i2 >= ci,
            None => true,
        },
    ensures
        next_nonempty(v, i) == Some(ci),
{
    lemma_next_nonempty(v, i);
    match next_nonempty(v, i) {
        Some(i2) => {
            if i2 > ci {
                assert(v[ci].1.len() == 0);
            }
        },
        None => {
            assert(v[ci].1.len() == 0);
        },
    }
}

/// How a park changes pair membership: the new pair joins its key's
/// bucket, everything else stays.
pub proof fn lemma_parked_pair_park(
    m: Map<Option<Seq<char>>, Seq<(int, bool)>>,
    key: Option<Seq<char>>,
    p: (int, bool),
    key2: Option<Seq<char>>,
    k: int,
    it: bool,
)
    ensures
        ({
            let cur = if m.contains_key(key) {
                m[key]
            } else {
                Seq::<(int, bool)>::empty()
            };
            parked_pair(m.insert(key, cur.push(p)), key2, k, it) == (parked_pair(m, key2, k, it)
                || (key2 == key && (k, it) == p))
        }),
{
    let cur = if m.contains_key(key) {
        m[key]
    } else {
        Seq::<(int, bool)>::empty()
    };
    let m2 = m.insert(key, cur.push(p));
    if parked_pair(m2, key2, k, it) {
        let pi = choose|pi: int| 0 <= pi < m2[key2].len() && #[trigger] m2[key2][pi] == (k, it);
        if key2 == key {
            if pi < cur.len() {
                assert(cur[pi] == (k, it));
                assert(m.contains_key(key) ==> m[key][pi] == (k, it));
            }
        } else {
            assert(m[key2][pi] == (k, it));
        }
    }
    if parked_pair(m, key2, k, it) {
        let pi = choose|pi: int| 0 <= pi < m[key2].len() && #[trigger] m[key2][pi] == (k, it);
        if key2 == key {
            assert(m2[key2][pi] == (k, it));
        } else {
            assert(m2[key2][pi] == (k, it));
        }
    }
    if key2 == key && (k, it) == p {
        assert(m2[key2][cur.len() as int] == (k, it));
    }
}

/// How a removal changes pair membership.
pub proof fn lemma_parked_pair_remove(
    m: Map<Option<Seq<char>>, Seq<(int, bool)>>,
    key: Option<Seq<char>>,
    key2: Option<Seq<char>>,
    k: int,
    it: bool,
)
    ensures
        parked_pair(m.remove(key), key2, k, it) == (key2 != key && parked_pair(m, key2, k, it)),
{
    let m2 = m.remove(key);
    if parked_pair(m2, key2, k, it) {
        let pi = choose|pi: int| 0 <= pi < m2[key2].len() && #[trigger] m2[key2][pi] == (k, it);
        assert(m[key2][pi] == (k, it));
    }
    if key2 != key && parked_pair(m, key2, k, it) {
        let pi = choose|pi: int| 0 <= pi < m[key2].len() && #[trigger] m[key2][pi] == (k, it);
        assert(m2[key2][pi] == (k, it));
    }
}

/// A taken bucket lists exactly the pairs its key held.
pub proof fn lemma_pairs_bridge(b: Seq<(usize, bool)>, s: Seq<(int, bool)>)
    requires
        bucket_view(b) == s,
    ensures
        forall|k: int, it: bool| #[trigger]
            pair_in(b, k, it) == exists|pi: int| 0 <= pi < s.len() && s[pi] == (k, it),
{
    assert forall|k: int, it: bool| #[trigger]
        pair_in(b, k, it) == exists|pi: int| 0 <= pi < s.len() && s[pi] == (k, it) by {
        if pair_in(b, k, it) {
            let pi = choose|pi: int|
                0 <= pi < b.len() && (#[trigger] b[pi]).0 == k && b[pi].1 == it;
            assert(bucket_view(b)[pi] == (b[pi].0 as int, b[pi].1));
            assert(s[pi] == (k, it));
        }
        if exists|pi: int| 0 <= pi < s.len() && s[pi] == (k, it) {
            let pi = choose|pi: int| 0 <= pi < s.len() && #[trigger] s[pi] == (k, it);
            assert(bucket_view(b)[pi] == (b[pi].0 as int, b[pi].1));
            assert(b[pi].0 == k && b[pi].1 == it);
        }
    }
}

/// One more processed step extends the set of awaiting named edges by at
/// most that step's explicit continuations.
pub proof fn lemma_awaiting_named_split(
    v: Seq<(Seq<char>, Seq<StepView>)>,
    nm: Seq<char>,
    k: int,
    it: bool,
    upto: int,
    ci: int,
    idx: int,
)
    requires
        0 <= ci < v.len(),
        0 <= idx,
    ensures
        awaiting_named(v, nm, k, it, upto, ci, idx + 1) == (awaiting_named(
            v,
            nm,
            k,
            it,
            upto,
            ci,
            idx,
        ) || (!chain_started(v, upto, nm) && idx < cutoff(v[ci].1, 0) && k == node_base(v, ci)
            + idx && (if it {
            v[ci].1[idx].then_dest
        } else {
            v[ci].1[idx].else_dest
        }) == Some(nm))),
{
    if awaiting_named(v, nm, k, it, upto, ci, idx + 1) {
        let (i, j) = choose|i: int, j: int|
            processed_step(v, ci, idx + 1, i, j) && k == node_base(v, i) + j && (if it {
                (#[trigger] v[i].1[j]).then_dest
            } else {
                v[i].1[j].else_dest
            }) == Some(nm);
        if i < ci || j < idx {
            assert(processed_step(v, ci, idx, i, j));
        }
    }
    if awaiting_named(v, nm, k, it, upto, ci, idx) {
        let (i, j) = choose|i: int, j: int|
            processed_step(v, ci, idx, i, j) && k == node_base(v, i) + j && (if it {
                (#[trigger] v[i].1[j]).then_dest
            } else {
                v[i].1[j].else_dest
            }) == Some(nm);
        assert(processed_step(v, ci, idx + 1, i, j));
    }
    if !chain_started(v, upto, nm) && idx < cutoff(v[ci].1, 0) && k == node_base(v, ci) + idx
        && (if it {
        v[ci].1[idx].then_dest
    } else {
        v[ci].1[idx].else_dest
    }) == Some(nm) {
        assert(processed_step(v, ci, idx + 1, ci, idx));
    }
}

/// Likewise for the fall-through else edges.
pub proof fn lemma_awaiting_none_split(
    v: Seq<(Seq<char>, Seq<StepView>)>,
    k: int,
    it: bool,
    upto: int,
    ci: int,
    idx: int,
)
    requires
        0 <= ci < v.len(),
        0 <= idx,
    ensures
        awaiting_none(v, k, it, upto, ci, idx + 1) == (awaiting_none(v, k, it, upto, ci, idx) || (
        !it && idx < cutoff(v[ci].1, 0) && k == node_base(v, ci) + idx && v[ci].1[idx].else_dest
            is None && (match next_nonempty(v, ci) {
            Some(i2) => i2 >= upto,
            None => true,
        }))),
{
    if awaiting_none(v, k, it, upto, ci, idx + 1) {
        let (i, j) = choose|i: int, j: int|
            processed_step(v, ci, idx + 1, i, j) && k == node_base(v, i) + j
                && (#[trigger] v[i].1[j]).else_dest is None && (match next_nonempty(v, i) {
                Some(i2) => i2 >= upto,
                None => true,
            });
        if i < ci || j < idx {
            assert(processed_step(v, ci, idx, i, j));
        }
    }
    if awaiting_none(v, k, it, upto, ci, idx) {
        let (i, j) = choose|i: int, j: int|
            processed_step(v, ci, idx, i, j) && k == node_base(v, i) + j
                && (#[trigger] v[i].1[j]).else_dest is None && (match next_nonempty(v, i) {
                Some(i2) => i2 >= upto,
                None => true,
            });
        assert(processed_step(v, ci, idx + 1, i, j));
    }
    if !it && idx < cutoff(v[ci].1, 0) && k == node_base(v, ci) + idx && v[ci].1[idx].else_dest
        is None && (match next_nonempty(v, ci) {
        Some(i2) => i2 >= upto,
        None => true,
    }) {
        assert(processed_step(v, ci, idx + 1, ci, idx));
    }
}

/// A compiled step: its display name, its module, and the resolved jumps;
/// `None` is the terminal marker.
struct Node {
    name: String,
    module: Module,
    then_dest: Option<usize>,
    else_dest: Option<usize>,
}

/// Edges may only lead forward, to an existing node.
spec fn node_ok(n: Node, k: int, len: int) -> bool {
    &&& n.module.wf()
    &&& match n.then_dest {
        Some(t) => k < t < len,
        None => true,
    }
    &&& match n.else_dest {
        Some(t) => k < t < len,
        None => true,
    }
}

/// Like `node_ok`, but an edge may also point at the node about to be
/// appended.
spec fn node_ok_pending(n: Node, k: int, len: int) -> bool {
    &&& n.module.wf()
    &&& match n.then_dest {
        Some(t) => k < t <= len,
        None => true,
    }
    &&& match n.else_dest {
        Some(t) => k < t <= len,
        None => true,
    }
}

/// A compiled node as the contracts see it: its display name, its module
/// and its two jumps, as unbounded indices.
pub struct NodeView {
    pub name: Seq<char>,
    pub module: Module,
    pub then_dest: Option<int>,
    pub else_dest: Option<int>,
}

/// A jump as an unbounded index.
pub open spec fn edge_view(o: Option<usize>) -> Option<int> {
    match o {
        Some(t) => Some(t as int),
        None => None,
    }
}

/// Every jump leads forward, to a node in range.
pub open spec fn nodes_forward(ns: Seq<NodeView>) -> bool {
    forall|k: int|
        0 <= k < ns.len() ==> (match (#[trigger] ns[k]).then_dest {
            Some(t) => k < t < ns.len(),
            None => true,
        }) && (match ns[k].else_dest {
            Some(t) => k < t < ns.len(),
            None => true,
        })
}

/// One admissible walk of the graph from node `i` to a stop: some module
/// verdict allowed by [`module_outcome`] is taken at each node, the
/// matching jump is followed, and the walk ends at a terminal jump or on
/// an action error, leaving the record, the counters and the mapping
/// cache in the ending state.
pub open spec fn run_trace(
    ns: Seq<NodeView>,
    i: int,
    rec0: Map<Seq<char>, ValueView>,
    cs0: Map<CKey, CData>,
    dn0: Seq<DnatMappingView>,
    rec1: Map<Seq<char>, ValueView>,
    cs1: Map<CKey, CData>,
    dn1: Seq<DnatMappingView>,
    now: int,
) -> bool
    decreases ns.len() - i,
    when 0 <= i < ns.len() && nodes_forward(ns)
{
    exists|r: Result<bool, Error>, rm: Map<Seq<char>, ValueView>, cm: Map<CKey, CData>, dm: Seq<
        DnatMappingView,
    >|
        #[trigger] module_outcome(ns[i].module, rec0, rm, cs0, cm, dn0, dm, now, r) && match r {
            Ok(b) => match (if b {
                ns[i].then_dest
            } else {
                ns[i].else_dest
            }) {
                Some(t) => run_trace(ns, t, rm, cm, dm, rec1, cs1, dn1, now),
                None => rec1 == rm && cs1 == cm && dn1 == dm,
            },
            Err(_) => rec1 == rm && cs1 == cm && dn1 == dm,
        }
}

/// The table of continuations waiting for a chain to start: parked edges
/// under the awaited chain's name, or under `None` for fall-through else
/// edges bound to whichever chain starts next.
pub type DanglingInfo = Vec<(Option<String>, Vec<(usize, bool)>)>;

pub open spec fn bucket_view(b: Seq<(usize, bool)>) -> Seq<(int, bool)> {
    Seq::new(b.len(), |j: int| (b[j].0 as int, b[j].1))
}

pub open spec fn dangling_view(s: Seq<(Option<String>, Vec<(usize, bool)>)>) -> Seq<
    (Option<Seq<char>>, Seq<(int, bool)>),
> {
    Seq::new(s.len(), |i: int| (opt_str_view(s[i].0), bucket_view(s[i].1@)))
}

/// Every parked edge refers to a node that already exists.
pub open spec fn parked_ok(m: Map<Option<Seq<char>>, Seq<(int, bool)>>, len: int) -> bool {
    forall|k: Option<Seq<char>>, pi: int|
        m.contains_key(k) && 0 <= pi < m[k].len() ==> 0 <= (#[trigger] m[k][pi]).0 < len
}

/// Every named bucket awaits a later, non-empty chain.
pub open spec fn parked_resolvable(
    m: Map<Option<Seq<char>>, Seq<(int, bool)>>,
    v: Seq<(Seq<char>, Seq<StepView>)>,
    ci: int,
) -> bool {
    forall|nm: Seq<char>|
        #[trigger] m.contains_key(Some(nm)) ==> exists|i2: int|
            ci <= i2 < v.len() && (#[trigger] v[i2]).0 == nm && v[i2].1.len() > 0
}

proof fn lemma_parked_grow(m: Map<Option<Seq<char>>, Seq<(int, bool)>>, len1: int, len2: int)
    requires
        parked_ok(m, len1),
        len1 <= len2,
    ensures
        parked_ok(m, len2),
{
}

proof fn lemma_parked_remove(
    m: Map<Option<Seq<char>>, Seq<(int, bool)>>,
    k: Option<Seq<char>>,
    len: int,
)
    requires
        parked_ok(m, len),
    ensures
        parked_ok(m.remove(k), len),
{
    assert forall|k2: Option<Seq<char>>, pi: int|
        m.remove(k).contains_key(k2) && 0 <= pi < m.remove(k)[k2].len() implies 0 <= (
    #[trigger] m.remove(k)[k2][pi]).0 < len by {
        assert(m[k2][pi] == m.remove(k)[k2][pi]);
    }
}

proof fn lemma_parked_park(
    m: Map<Option<Seq<char>>, Seq<(int, bool)>>,
    k: Option<Seq<char>>,
    p: (int, bool),
    len: int,
)
    requires
        parked_ok(m, len),
        0 <= p.0 < len,
    ensures
        parked_ok(
            m.insert(
                k,
                (if m.contains_key(k) {
                    m[k]
                } else {
                    Seq::<(int, bool)>::empty()
                }).push(p),
            ),
            len,
        ),
{
    let cur = if m.contains_key(k) {
        m[k]
    } else {
        Seq::<(int, bool)>::empty()
    };
    let m2 = m.insert(k, cur.push(p));
    assert forall|k2: Option<Seq<char>>, pi: int|
        m2.contains_key(k2) && 0 <= pi < m2[k2].len() implies 0 <= (#[trigger] m2[k2][pi]).0
        < len by {
        if k2 == k {
            if pi < cur.len() {
                assert(m2[k2][pi] == cur[pi]);
                if m.contains_key(k) {
                    assert(m[k][pi] == cur[pi]);
                }
            } else {
                assert(m2[k2][pi] == p);
            }
        } else {
            assert(m[k2][pi] == m2[k2][pi]);
        }
    }
}

/// Parks an edge of the node about to be appended under the chain it
/// waits for.
pub fn node_wants_chain(
    next_node_index: usize,
    is_then: bool,
    dangling: &mut DanglingInfo,
    wanted_chain: Option<String>,
)
    requires
        distinct_keys(dangling_view(old(dangling)@)),
    ensures
        distinct_keys(dangling_view(final(dangling)@)),
        assoc_map(dangling_view(final(dangling)@)) == ({
            let m = assoc_map(dangling_view(old(dangling)@));
            let k = opt_str_view(wanted_chain);
            let cur = if m.contains_key(k) {
                m[k]
            } else {
                Seq::<(int, bool)>::empty()
            };
            m.insert(k, cur.push((next_node_index as int, is_then)))
        }),
{
    let ghost k = opt_str_view(wanted_chain);
    proof {
        lemma_assoc_contains(dangling_view(dangling@), k);
    }
    let mut i: usize = 0;
    let n: usize = dangling.len();
    while i < n
        invariant
            n == dangling@.len(),
            i <= n,
            dangling@ == old(dangling)@,
            k == opt_str_view(wanted_chain),
            distinct_keys(dangling_view(dangling@)),
            forall|j: int| 0 <= j < i ==> dangling_view(dangling@)[j].0 != k,
        decreases n - i,
    {
        let hit: bool = match (&dangling[i].0, &wanted_chain) {
            (Some(a), Some(b)) => str_eq(a.as_str(), b.as_str()),
            (None, None) => true,
            _ => false,
        };
        proof {
            assert(dangling_view(dangling@)[i as int] == (
                opt_str_view(dangling@[i as int].0),
                bucket_view(dangling@[i as int].1@),
            ));
        }
        if hit {
            let ghost dv0 = dangling_view(dangling@);
            proof {
                assert(dv0[i as int].0 == k);
                lemma_assoc_at(dv0, i as int);
                lemma_assoc_update(
                    dv0,
                    i as int,
                    k,
                    dv0[i as int].1.push((next_node_index as int, is_then)),
                );
            }
            let (key, mut bucket) = dangling.remove(i);
            bucket.push((next_node_index, is_then));
            dangling.push((key, bucket));
            proof {
                assert(bucket_view(bucket@) =~= dv0[i as int].1.push(
                    (next_node_index as int, is_then),
                ));
                assert(dangling_view(dangling@) =~= dv0.remove(i as int).push(
                    (k, dv0[i as int].1.push((next_node_index as int, is_then))),
                ));
            }
            return ;
        }
        i = i + 1;
    }
    let ghost dv0 = dangling_view(dangling@);
    proof {
        lemma_assoc_push_fresh(
            dv0,
            k,
            Seq::<(int, bool)>::empty().push((next_node_index as int, is_then)),
        );
    }
    let mut bucket: Vec<(usize, bool)> = Vec::new();
    bucket.push((next_node_index, is_then));
    dangling.push((wanted_chain, bucket));
    proof {
        assert(bucket_view(bucket@) =~= Seq::<(int, bool)>::empty().push(
            (next_node_index as int, is_then),
        ));
        assert(dangling_view(dangling@) =~= dv0.push(
            (k, Seq::<(int, bool)>::empty().push((next_node_index as int, is_then))),
        ));
    }
}

/// Takes the bucket parked under a key out of the table, if there is one.
fn take_bucket(dangling: &mut DanglingInfo, key_name: Option<&str>) -> (r: Option<
    Vec<(usize, bool)>,
>)
    requires
        distinct_keys(dangling_view(old(dangling)@)),
    ensures
        distinct_keys(dangling_view(final(dangling)@)),
        ({
            let m = assoc_map(dangling_view(old(dangling)@));
            let k = match key_name {
                Some(s) => Some(s@),
                None => None,
            };
            match r {
                Some(b) => m.contains_key(k) && bucket_view(b@) == m[k] && assoc_map(
                    dangling_view(final(dangling)@),
                ) == m.remove(k),
                None => !m.contains_key(k) && final(dangling)@ == old(dangling)@,
            }
        }),
{
    let ghost k: Option<Seq<char>> = match key_name {
        Some(s) => Some(s@),
        None => None,
    };
    proof {
        lemma_assoc_contains(dangling_view(dangling@), k);
    }
    let mut i: usize = 0;
    let n: usize = dangling.len();
    while i < n
        invariant
            n == dangling@.len(),
            i <= n,
            dangling@ == old(dangling)@,
            k == (match key_name {
                Some(s) => Some(s@),
                None => None,
            }),
            distinct_keys(dangling_view(dangling@)),
            forall|j: int| 0 <= j < i ==> dangling_view(dangling@)[j].0 != k,
        decreases n - i,
    {
        let hit: bool = match (&dangling[i].0, &key_name) {
            (Some(a), Some(b)) => str_eq(a.as_str(), b),
            (None, None) => true,
            _ => false,
        };
        proof {
            assert(dangling_view(dangling@)[i as int] == (
                opt_str_view(dangling@[i as int].0),
                bucket_view(dangling@[i as int].1@),
            ));
        }
        if hit {
            let ghost dv0 = dangling_view(dangling@);
            proof {
                assert(dv0[i as int].0 == k);
                lemma_assoc_at(dv0, i as int);
                lemma_assoc_remove(dv0, i as int);
            }
            let (_key, bucket) = dangling.remove(i);
            proof {
                assert(bucket_view(bucket@) == dv0[i as int].1);
                assert(dangling_view(dangling@) =~= dv0.remove(i as int));
            }
            return Some(bucket);
        }
        i = i + 1;
    }
    proof {
        lemma_assoc_contains(dangling_view(dangling@), k);
    }
    None
}

/// Whether the bucket lists an edge.
pub open spec fn pair_in(b: Seq<(usize, bool)>, k: int, is_then: bool) -> bool {
    exists|pi: int| 0 <= pi < b.len() && (#[trigger] b[pi]).0 == k && b[pi].1 == is_then
}

/// Points every parked edge of a bucket at the node about to be appended;
/// nothing else changes.
fn resolve_bucket(nodes: &mut Vec<Node>, bucket: &Vec<(usize, bool)>, target: usize)
    requires
        target == old(nodes)@.len(),
        forall|k: int|
            0 <= k < old(nodes)@.len() ==> node_ok_pending(
                #[trigger] old(nodes)@[k],
                k,
                old(nodes)@.len() as int,
            ),
        forall|pi: int|
            0 <= pi < bucket@.len() ==> 0 <= (#[trigger] bucket@[pi]).0 < old(nodes)@.len(),
    ensures
        final(nodes)@.len() == old(nodes)@.len(),
        forall|k: int|
            0 <= k < final(nodes)@.len() ==> node_ok_pending(
                #[trigger] final(nodes)@[k],
                k,
                final(nodes)@.len() as int,
            ),
        forall|k: int|
            0 <= k < final(nodes)@.len() ==> {
                &&& (#[trigger] final(nodes)@[k]).module == old(nodes)@[k].module
                &&& final(nodes)@[k].name == old(nodes)@[k].name
                &&& final(nodes)@[k].then_dest == (if pair_in(bucket@, k, true) {
                    Some(target)
                } else {
                    old(nodes)@[k].then_dest
                })
                &&& final(nodes)@[k].else_dest == (if pair_in(bucket@, k, false) {
                    Some(target)
                } else {
                    old(nodes)@[k].else_dest
                })
            },
{
    let ghost len0 = nodes@.len();
    let mut pi: usize = 0;
    while pi < bucket.len()
        invariant
            nodes@.len() == len0,
            target == len0,
            pi <= bucket@.len(),
            forall|p2: int| 0 <= p2 < bucket@.len() ==> 0 <= (#[trigger] bucket@[p2]).0 < len0,
            forall|k: int|
                0 <= k < nodes@.len() ==> node_ok_pending(
                    #[trigger] nodes@[k],
                    k,
                    nodes@.len() as int,
                ),
            forall|k: int|
                0 <= k < nodes@.len() ==> {
                    &&& (#[trigger] nodes@[k]).module == old(nodes)@[k].module
                    &&& nodes@[k].name == old(nodes)@[k].name
                    &&& nodes@[k].then_dest == (if pair_in(
                        bucket@.subrange(0, pi as int),
                        k,
                        true,
                    ) {
                        Some(target)
                    } else {
                        old(nodes)@[k].then_dest
                    })
                    &&& nodes@[k].else_dest == (if pair_in(
                        bucket@.subrange(0, pi as int),
                        k,
                        false,
                    ) {
                        Some(target)
                    } else {
                        old(nodes)@[k].else_dest
                    })
                },
        decreases bucket@.len() - pi,
    {
        let (ni, is_then) = bucket[pi];
        let ghost pre = nodes@;
        if is_then {
            nodes[ni].then_dest = Some(target);
        } else {
            nodes[ni].else_dest = Some(target);
        }
        proof {
            assert(bucket@.subrange(0, pi + 1) =~= bucket@.subrange(0, pi as int).push(
                bucket@[pi as int],
            ));
            assert forall|k: int, it: bool|
                true implies pair_in(bucket@.subrange(0, pi + 1), k, it) == (pair_in(
                bucket@.subrange(0, pi as int),
                k,
                it,
            ) || (k == ni as int && it == is_then)) by {
                let b1 = bucket@.subrange(0, pi + 1);
                let b0 = bucket@.subrange(0, pi as int);
                if pair_in(b1, k, it) {
                    let w = choose|w: int| 0 <= w < b1.len() && (#[trigger] b1[w]).0 == k && b1[w].1 == it;
                    if w < b0.len() {
                        assert(b0[w] == b1[w]);
                    }
                }
                if pair_in(b0, k, it) {
                    let w = choose|w: int| 0 <= w < b0.len() && (#[trigger] b0[w]).0 == k && b0[w].1 == it;
                    assert(b1[w] == b0[w]);
                }
                if k == ni as int && it == is_then {
                    assert(b1[pi as int] == (ni, is_then));
                }
            }
            assert forall|k: int|
                0 <= k < nodes@.len() implies node_ok_pending(
                #[trigger] nodes@[k],
                k,
                nodes@.len() as int,
            ) by {
                if k != ni {
                    assert(nodes@[k] == pre[k]);
                }
            }
        }
        pi = pi + 1;
    }
    proof {
        assert(bucket@.subrange(0, bucket@.len() as int) =~= bucket@);
    }
}

pub open spec fn seen_view(s: Seq<String>) -> Seq<Seq<char>> {
    Seq::new(s.len(), |i: int| s[i]@)
}

/// Whether a chain name was already encountered.
fn seen_contains(seen: &Vec<String>, name: &str) -> (r: bool)
    ensures
        r == exists|i: int|
            0 <= i < seen_view(seen@).len() && #[trigger] seen_view(seen@)[i] == name@,
{
    let mut i: usize = 0;
    while i < seen.len()
        invariant
            i <= seen@.len(),
            forall|j: int| 0 <= j < i ==> #[trigger] seen_view(seen@)[j] != name@,
        decreases seen@.len() - i,
    {
        proof {
            assert(seen_view(seen@)[i as int] == seen@[i as int]@);
        }
        if str_eq(seen[i].as_str(), name) {
            proof {
                assert(seen_view(seen@)[i as int] == name@);
            }
            return true;
        }
        i = i + 1;
    }
    false
}

/// A name is in the seen prefix exactly when it is a back reference.
proof fn lemma_seen_back_ref(v: Seq<(Seq<char>, Seq<StepView>)>, ci: int, nm: Seq<char>)
    requires
        0 <= ci < v.len(),
    ensures
        (exists|i: int|
            0 <= i < chain_names(v).subrange(0, ci + 1).len() && #[trigger] chain_names(
                v,
            ).subrange(0, ci + 1)[i] == nm) <==> back_ref(v, ci, Some(nm)),
{
    let pre = chain_names(v).subrange(0, ci + 1);
    if exists|i: int| 0 <= i < pre.len() && #[trigger] pre[i] == nm {
        let i = choose|i: int| 0 <= i < pre.len() && #[trigger] pre[i] == nm;
        assert(chain_names(v)[i] == nm);
        assert(v[i].0 == nm);
    }
    if back_ref(v, ci, Some(nm)) {
        let i2 = choose|i2: int| 0 <= i2 <= ci && (#[trigger] v[i2]).0 == nm;
        assert(chain_names(v)[i2] == nm);
        assert(pre[i2] == nm);
    }
}

/// What resolving the two buckets at a chain start does to the compiled
/// state: every edge awaiting this chain's name, and every fall-through
/// else edge still waiting, now points at the chain's first node; nothing
/// else moves, and the waiting table loses exactly those edges.
proof fn lemma_resolution_state(
    v: Seq<(Seq<char>, Seq<StepView>)>,
    nodes_in: Seq<Node>,
    nodes_mid: Seq<Node>,
    nodes_fin: Seq<Node>,
    m_in: Map<Option<Seq<char>>, Seq<(int, bool)>>,
    b1: Seq<(int, bool)>,
    b2: Seq<(int, bool)>,
    ci: int,
    cnv: Seq<char>,
    target_u: usize,
)
    requires
        config_buildable(v),
        0 <= ci < v.len(),
        v[ci].1.len() > 0,
        cnv == v[ci].0,
        target_u as int == node_base(v, ci),
        nodes_in.len() == node_base(v, ci),
        nodes_mid.len() == nodes_in.len(),
        nodes_fin.len() == nodes_in.len(),
        b1 == (if m_in.contains_key(Some(cnv)) {
            m_in[Some(cnv)]
        } else {
            Seq::<(int, bool)>::empty()
        }),
        b2 == (if m_in.remove(Some(cnv)).contains_key(None) {
            m_in.remove(Some(cnv))[None::<Seq<char>>]
        } else {
            Seq::<(int, bool)>::empty()
        }),
        prefix_state_ok(v, nodes_in, ci, ci),
        buckets_state_ok(v, m_in, ci, ci, 0),
        forall|k: int|
            0 <= k < nodes_mid.len() ==> {
                &&& (#[trigger] nodes_mid[k]).module == nodes_in[k].module
                &&& nodes_mid[k].name == nodes_in[k].name
                &&& nodes_mid[k].then_dest == (if (exists|pi: int|
                    0 <= pi < b1.len() && #[trigger] b1[pi] == (k, true)) {
                    Some(target_u)
                } else {
                    nodes_in[k].then_dest
                })
                &&& nodes_mid[k].else_dest == (if (exists|pi: int|
                    0 <= pi < b1.len() && #[trigger] b1[pi] == (k, false)) {
                    Some(target_u)
                } else {
                    nodes_in[k].else_dest
                })
            },
        forall|k: int|
            0 <= k < nodes_fin.len() ==> {
                &&& (#[trigger] nodes_fin[k]).module == nodes_mid[k].module
                &&& nodes_fin[k].name == nodes_mid[k].name
                &&& nodes_fin[k].then_dest == (if (exists|pi: int|
                    0 <= pi < b2.len() && #[trigger] b2[pi] == (k, true)) {
                    Some(target_u)
                } else {
                    nodes_mid[k].then_dest
                })
                &&& nodes_fin[k].else_dest == (if (exists|pi: int|
                    0 <= pi < b2.len() && #[trigger] b2[pi] == (k, false)) {
                    Some(target_u)
                } else {
                    nodes_mid[k].else_dest
                })
            },
    ensures
        prefix_state_ok(v, nodes_fin, ci + 1, ci),
        buckets_state_ok(v, m_in.remove(Some(cnv)).remove(None), ci + 1, ci, 0),
{
    let m2 = m_in.remove(Some(cnv)).remove(None);
    assert(distinct_names(v));
    assert(!chain_started(v, ci, cnv)) by {
        if chain_started(v, ci, cnv) {
            let i2 = choose|i2: int|
                0 <= i2 < ci && (#[trigger] v[i2]).0 == cnv && v[i2].1.len() > 0;
            assert(v[i2].0 != v[ci].0);
        }
    }
    assert(chain_started(v, ci + 1, cnv)) by {
        assert(0 <= ci < ci + 1 && v[ci].0 == cnv && v[ci].1.len() > 0);
    }
    assert forall|nm: Seq<char>| nm != cnv implies #[trigger] chain_started(v, ci + 1, nm)
        == chain_started(v, ci, nm) by {
        if chain_started(v, ci + 1, nm) {
            let i2 = choose|i2: int|
                0 <= i2 < ci + 1 && (#[trigger] v[i2]).0 == nm && v[i2].1.len() > 0;
            if i2 == ci {
                assert(nm == cnv);
            } else {
                assert(0 <= i2 < ci && v[i2].0 == nm && v[i2].1.len() > 0);
            }
        }
    }
    assert forall|k: int, it: bool| (exists|pi: int|
        0 <= pi < b1.len() && #[trigger] b1[pi] == (k, it)) == parked_pair(
        m_in,
        Some(cnv),
        k,
        it,
    ) by {
        if m_in.contains_key(Some(cnv)) {
        } else {
            assert(b1.len() == 0);
        }
    }
    assert forall|k: int, it: bool| (exists|pi: int|
        0 <= pi < b2.len() && #[trigger] b2[pi] == (k, it)) == parked_pair(
        m_in,
        None::<Seq<char>>,
        k,
        it,
    ) by {
        lemma_parked_pair_remove(m_in, Some(cnv), None::<Seq<char>>, k, it);
        if m_in.remove(Some(cnv)).contains_key(None::<Seq<char>>) {
        } else {
            assert(b2.len() == 0);
        }
    }
    assert forall|i: int, j: int|
        0 <= i < ci && 0 <= j < cutoff(v[i].1, 0) implies #[trigger] step_state_ok(
        v,
        nodes_fin,
        ci + 1,
        cutoff(v[i].1, 0),
        i,
        j,
    ) by {
        assert(step_state_ok(v, nodes_in, ci, cutoff(v[i].1, 0), i, j));
        let k = node_base(v, i) + j;
        lemma_cutoff_bounds(v[i].1, 0);
        lemma_node_base_nonneg(v, i);
        lemma_node_base_bounds(v, i + 1, ci);
        assert(node_base(v, i + 1) == node_base(v, i) + cutoff(v[i].1, 0));
        // no bucket lists a then edge under `None`
        if exists|pi: int| 0 <= pi < b2.len() && #[trigger] b2[pi] == (k, true) {
            assert(parked_pair(m_in, None::<Seq<char>>, k, true));
            assert(awaiting_none(v, k, true, ci, ci, 0));
            assert(false);
        }
        match v[i].1[j].then_dest {
            Some(nm) => {
                if exists|pi: int| 0 <= pi < b1.len() && #[trigger] b1[pi] == (k, true) {
                    assert(parked_pair(m_in, Some(cnv), k, true));
                    assert(awaiting_named(v, cnv, k, true, ci, ci, 0));
                    let (wi, wj) = choose|wi: int, wj: int|
                        processed_step(v, ci, 0, wi, wj) && k == node_base(v, wi) + wj && (
                        #[trigger] v[wi].1[wj]).then_dest == Some(cnv);
                    lemma_flat_inj(v, wi, wj, i, j);
                    assert(nm == cnv);
                }
                if chain_started(v, ci, nm) {
                    assert(nm != cnv);
                    assert(nodes_fin[k].then_dest == nodes_in[k].then_dest);
                } else if nm == cnv {
                    assert(awaiting_named(v, cnv, k, true, ci, ci, 0)) by {
                        assert(processed_step(v, ci, 0, i, j) && k == node_base(v, i) + j
                            && v[i].1[j].then_dest == Some(cnv));
                    }
                    assert(parked_pair(m_in, Some(cnv), k, true));
                    assert(nodes_fin[k].then_dest == Some(target_u));
                    lemma_chain_index_at(v, ci);
                } else {
                    assert(nodes_fin[k].then_dest == nodes_in[k].then_dest);
                    assert(nodes_fin[k].then_dest is None);
                }
            },
            None => {
                if exists|pi: int| 0 <= pi < b1.len() && #[trigger] b1[pi] == (k, true) {
                    assert(parked_pair(m_in, Some(cnv), k, true));
                    assert(awaiting_named(v, cnv, k, true, ci, ci, 0));
                    let (wi, wj) = choose|wi: int, wj: int|
                        processed_step(v, ci, 0, wi, wj) && k == node_base(v, wi) + wj && (
                        #[trigger] v[wi].1[wj]).then_dest == Some(cnv);
                    lemma_flat_inj(v, wi, wj, i, j);
                    assert(false);
                }
                assert(nodes_fin[k].then_dest == nodes_in[k].then_dest);
            },
        }
        // else edge
        if exists|pi: int| 0 <= pi < b1.len() && #[trigger] b1[pi] == (k, false) {
            assert(parked_pair(m_in, Some(cnv), k, false));
            assert(awaiting_named(v, cnv, k, false, ci, ci, 0));
            let (wi, wj) = choose|wi: int, wj: int|
                processed_step(v, ci, 0, wi, wj) && k == node_base(v, wi) + wj && (
                #[trigger] v[wi].1[wj]).else_dest == Some(cnv);
            lemma_flat_inj(v, wi, wj, i, j);
            assert(v[i].1[j].else_dest == Some(cnv));
        }
        if exists|pi: int| 0 <= pi < b2.len() && #[trigger] b2[pi] == (k, false) {
            assert(parked_pair(m_in, None::<Seq<char>>, k, false));
            assert(awaiting_none(v, k, false, ci, ci, 0));
            let (wi, wj) = choose|wi: int, wj: int|
                processed_step(v, ci, 0, wi, wj) && k == node_base(v, wi) + wj && (
                #[trigger] v[wi].1[wj]).else_dest is None && (match next_nonempty(v, wi) {
                Some(i2) => i2 >= ci,
                None => true,
            });
            lemma_flat_inj(v, wi, wj, i, j);
            assert(v[i].1[j].else_dest is None);
        }
        match v[i].1[j].else_dest {
            Some(nm) => {
                if chain_started(v, ci, nm) {
                    assert(nm != cnv);
                    assert(nodes_fin[k].else_dest == nodes_in[k].else_dest);
                } else if nm == cnv {
                    assert(awaiting_named(v, cnv, k, false, ci, ci, 0)) by {
                        assert(processed_step(v, ci, 0, i, j) && k == node_base(v, i) + j
                            && v[i].1[j].else_dest == Some(cnv));
                    }
                    assert(parked_pair(m_in, Some(cnv), k, false));
                    assert(nodes_fin[k].else_dest == Some(target_u));
                    lemma_chain_index_at(v, ci);
                } else {
                    assert(nodes_fin[k].else_dest == nodes_in[k].else_dest);
                }
            },
            None => {
                lemma_next_nonempty(v, i);
                match next_nonempty(v, i) {
                    Some(i2) => {
                        if i2 < ci {
                            if exists|pi: int|
                                0 <= pi < b2.len() && #[trigger] b2[pi] == (k, false) {
                                assert(false);
                            }
                            assert(nodes_fin[k].else_dest == nodes_in[k].else_dest);
                        } else {
                            lemma_next_nonempty_is(v, i, ci);
                            assert(i2 == ci);
                            assert(awaiting_none(v, k, false, ci, ci, 0)) by {
                                assert(processed_step(v, ci, 0, i, j) && k == node_base(v, i)
                                    + j && v[i].1[j].else_dest is None);
                            }
                            assert(parked_pair(m_in, None::<Seq<char>>, k, false));
                            assert(nodes_fin[k].else_dest == Some(target_u));
                        }
                    },
                    None => {
                        assert(v[ci].1.len() == 0);
                        assert(false);
                    },
                }
            },
        }
    }
    assert forall|nm: Seq<char>, k: int, it: bool| #[trigger]
        parked_pair(m2, Some(nm), k, it) == awaiting_named(v, nm, k, it, ci + 1, ci, 0) by {
        lemma_parked_pair_remove(m_in.remove(Some(cnv)), None::<Seq<char>>, Some(nm), k, it);
        lemma_parked_pair_remove(m_in, Some(cnv), Some(nm), k, it);
        if nm == cnv {
            assert(!parked_pair(m2, Some(nm), k, it));
            assert(chain_started(v, ci + 1, nm));
        } else {
            assert(parked_pair(m2, Some(nm), k, it) == parked_pair(m_in, Some(nm), k, it));
            assert(parked_pair(m_in, Some(nm), k, it) == awaiting_named(v, nm, k, it, ci, ci, 0));
            assert(chain_started(v, ci + 1, nm) == chain_started(v, ci, nm));
        }
    }
    assert forall|k: int, it: bool| #[trigger]
        parked_pair(m2, None::<Seq<char>>, k, it) == awaiting_none(v, k, it, ci + 1, ci, 0) by {
        lemma_parked_pair_remove(m_in.remove(Some(cnv)), None::<Seq<char>>, None::<Seq<char>>, k, it);
        assert(!parked_pair(m2, None::<Seq<char>>, k, it));
        if awaiting_none(v, k, it, ci + 1, ci, 0) {
            let (wi, wj) = choose|wi: int, wj: int|
                processed_step(v, ci, 0, wi, wj) && k == node_base(v, wi) + wj && (
                #[trigger] v[wi].1[wj]).else_dest is None && (match next_nonempty(v, wi) {
                Some(i2) => i2 >= ci + 1,
                None => true,
            });
            lemma_next_nonempty(v, wi);
            match next_nonempty(v, wi) {
                Some(i2) => {
                    if i2 > ci {
                        assert(v[ci].1.len() == 0);
                    }
                    assert(false);
                },
                None => {
                    assert(v[ci].1.len() == 0);
                    assert(false);
                },
            }
        }
    }
}

/// What parking a step's explicit and fall-through continuations does to
/// the waiting table: exactly that step's unresolved edges join it.
proof fn lemma_parks_state(
    v: Seq<(Seq<char>, Seq<StepView>)>,
    m0: Map<Option<Seq<char>>, Seq<(int, bool)>>,
    m1: Map<Option<Seq<char>>, Seq<(int, bool)>>,
    mfin: Map<Option<Seq<char>>, Seq<(int, bool)>>,
    ci: int,
    idx: int,
    nxt: int,
    tdest: Option<Seq<char>>,
    edest: Option<Seq<char>>,
)
    requires
        config_buildable(v),
        0 <= ci < v.len(),
        0 <= idx < cutoff(v[ci].1, 0),
        nxt == node_base(v, ci) + idx,
        tdest == v[ci].1[idx].then_dest,
        edest == v[ci].1[idx].else_dest,
        !back_ref(v, ci, tdest),
        !back_ref(v, ci, edest),
        buckets_state_ok(v, m0, ci + 1, ci, idx),
        match tdest {
            Some(nm) => m1 == m0.insert(
                Some(nm),
                (if m0.contains_key(Some(nm)) {
                    m0[Some(nm)]
                } else {
                    Seq::<(int, bool)>::empty()
                }).push((nxt, true)),
            ),
            None => m1 == m0,
        },
        match edest {
            Some(nm) => mfin == m1.insert(
                Some(nm),
                (if m1.contains_key(Some(nm)) {
                    m1[Some(nm)]
                } else {
                    Seq::<(int, bool)>::empty()
                }).push((nxt, false)),
            ),
            None => mfin == m1.insert(
                None,
                (if m1.contains_key(None::<Seq<char>>) {
                    m1[None::<Seq<char>>]
                } else {
                    Seq::<(int, bool)>::empty()
                }).push((nxt, false)),
            ),
        },
    ensures
        buckets_state_ok(v, mfin, ci + 1, ci, idx + 1),
{
    assert forall|nm: Seq<char>, k2: int, it: bool| #[trigger]
        parked_pair(mfin, Some(nm), k2, it) == awaiting_named(
        v,
        nm,
        k2,
        it,
        ci + 1,
        ci,
        idx + 1,
    ) by {
        lemma_awaiting_named_split(v, nm, k2, it, ci + 1, ci, idx);
        assert(parked_pair(m0, Some(nm), k2, it) == awaiting_named(v, nm, k2, it, ci + 1, ci, idx));
        match tdest {
            Some(tn) => {
                lemma_parked_pair_park(m0, Some(tn), (nxt, true), Some(nm), k2, it);
                assert(!chain_started(v, ci + 1, tn)) by {
                    if chain_started(v, ci + 1, tn) {
                        let i2 = choose|i2: int|
                            0 <= i2 < ci + 1 && (#[trigger] v[i2]).0 == tn && v[i2].1.len() > 0;
                        assert(back_ref(v, ci, tdest));
                    }
                }
            },
            None => {},
        }
        match edest {
            Some(en) => {
                lemma_parked_pair_park(m1, Some(en), (nxt, false), Some(nm), k2, it);
                assert(!chain_started(v, ci + 1, en)) by {
                    if chain_started(v, ci + 1, en) {
                        let i2 = choose|i2: int|
                            0 <= i2 < ci + 1 && (#[trigger] v[i2]).0 == en && v[i2].1.len() > 0;
                        assert(back_ref(v, ci, edest));
                    }
                }
            },
            None => {
                lemma_parked_pair_park(m1, None, (nxt, false), Some(nm), k2, it);
            },
        }
    }
    assert forall|k2: int, it: bool| #[trigger]
        parked_pair(mfin, None::<Seq<char>>, k2, it) == awaiting_none(
        v,
        k2,
        it,
        ci + 1,
        ci,
        idx + 1,
    ) by {
        lemma_awaiting_none_split(v, k2, it, ci + 1, ci, idx);
        assert(parked_pair(m0, None::<Seq<char>>, k2, it) == awaiting_none(
            v,
            k2,
            it,
            ci + 1,
            ci,
            idx,
        ));
        match tdest {
            Some(tn) => {
                lemma_parked_pair_park(m0, Some(tn), (nxt, true), None::<Seq<char>>, k2, it);
            },
            None => {},
        }
        match edest {
            Some(en) => {
                lemma_parked_pair_park(m1, Some(en), (nxt, false), None::<Seq<char>>, k2, it);
            },
            None => {
                lemma_parked_pair_park(m1, None, (nxt, false), None::<Seq<char>>, k2, it);
                lemma_next_nonempty(v, ci);
            },
        }
    }
}

/// Finishing a chain folds its steps into the compiled prefix and renames
/// nothing in the waiting table.
proof fn lemma_chain_exit_state(
    v: Seq<(Seq<char>, Seq<StepView>)>,
    nodes: Seq<Node>,
    mcur: Map<Option<Seq<char>>, Seq<(int, bool)>>,
    ci: int,
    idx: int,
)
    requires
        config_buildable(v),
        0 <= ci < v.len(),
        idx == cutoff(v[ci].1, 0),
        idx == 0 ==> v[ci].1.len() == 0 && prefix_state_ok(v, nodes, ci, ci)
            && buckets_state_ok(v, mcur, ci, ci, 0),
        idx > 0 ==> prefix_state_ok(v, nodes, ci + 1, ci) && (forall|j: int|
            0 <= j < idx ==> #[trigger] step_state_ok(v, nodes, ci + 1, idx, ci, j))
            && buckets_state_ok(v, mcur, ci + 1, ci, idx),
    ensures
        prefix_state_ok(v, nodes, ci + 1, ci + 1),
        buckets_state_ok(v, mcur, ci + 1, ci + 1, 0),
{
    lemma_cutoff_bounds(v[ci].1, 0);
    if idx == 0 {
        assert forall|nm: Seq<char>| #[trigger] chain_started(v, ci + 1, nm) == chain_started(
            v,
            ci,
            nm,
        ) by {
            if chain_started(v, ci + 1, nm) {
                let i2 = choose|i2: int|
                    0 <= i2 < ci + 1 && (#[trigger] v[i2]).0 == nm && v[i2].1.len() > 0;
                if i2 < ci {
                    assert(chain_started(v, ci, nm));
                }
            }
        }
        assert forall|i: int, j: int|
            0 <= i < ci + 1 && 0 <= j < cutoff(v[i].1, 0) implies #[trigger] step_state_ok(
            v,
            nodes,
            ci + 1,
            cutoff(v[i].1, 0),
            i,
            j,
        ) by {
            assert(i < ci);
            assert(step_state_ok(v, nodes, ci, cutoff(v[i].1, 0), i, j));
            lemma_next_nonempty(v, i);
        }
        assert forall|nm: Seq<char>, k2: int, it: bool| #[trigger]
            parked_pair(mcur, Some(nm), k2, it) == awaiting_named(v, nm, k2, it, ci + 1, ci + 1, 0) by {
            assert(parked_pair(mcur, Some(nm), k2, it) == awaiting_named(v, nm, k2, it, ci, ci, 0));
            if awaiting_named(v, nm, k2, it, ci, ci, 0) {
                let (wi, wj) = choose|wi: int, wj: int|
                    processed_step(v, ci, 0, wi, wj) && k2 == node_base(v, wi) + wj && (if it {
                        (#[trigger] v[wi].1[wj]).then_dest
                    } else {
                        v[wi].1[wj].else_dest
                    }) == Some(nm);
                assert(processed_step(v, ci + 1, 0, wi, wj));
            }
            if awaiting_named(v, nm, k2, it, ci + 1, ci + 1, 0) {
                let (wi, wj) = choose|wi: int, wj: int|
                    processed_step(v, ci + 1, 0, wi, wj) && k2 == node_base(v, wi) + wj && (if it {
                        (#[trigger] v[wi].1[wj]).then_dest
                    } else {
                        v[wi].1[wj].else_dest
                    }) == Some(nm);
                if wi == ci {
                    assert(false);
                }
                assert(processed_step(v, ci, 0, wi, wj));
            }
        }
        assert forall|k2: int, it: bool| #[trigger]
            parked_pair(mcur, None::<Seq<char>>, k2, it) == awaiting_none(
            v,
            k2,
            it,
            ci + 1,
            ci + 1,
            0,
        ) by {
            assert(parked_pair(mcur, None::<Seq<char>>, k2, it) == awaiting_none(
                v,
                k2,
                it,
                ci,
                ci,
                0,
            ));
            if awaiting_none(v, k2, it, ci, ci, 0) {
                let (wi, wj) = choose|wi: int, wj: int|
                    processed_step(v, ci, 0, wi, wj) && k2 == node_base(v, wi) + wj && (
                    #[trigger] v[wi].1[wj]).else_dest is None && (match next_nonempty(v, wi) {
                        Some(i2) => i2 >= ci,
                        None => true,
                    });
                lemma_next_nonempty(v, wi);
                assert(processed_step(v, ci + 1, 0, wi, wj));
                match next_nonempty(v, wi) {
                    Some(i2) => {
                        if i2 == ci {
                            assert(v[ci].1.len() > 0);
                        }
                    },
                    None => {},
                }
            }
            if awaiting_none(v, k2, it, ci + 1, ci + 1, 0) {
                let (wi, wj) = choose|wi: int, wj: int|
                    processed_step(v, ci + 1, 0, wi, wj) && k2 == node_base(v, wi) + wj && (
                    #[trigger] v[wi].1[wj]).else_dest is None && (match next_nonempty(v, wi) {
                        Some(i2) => i2 >= ci + 1,
                        None => true,
                    });
                if wi == ci {
                    assert(false);
                }
                assert(processed_step(v, ci, 0, wi, wj));
                lemma_next_nonempty(v, wi);
            }
        }
    } else {
        assert forall|i: int, j: int|
            0 <= i < ci + 1 && 0 <= j < cutoff(v[i].1, 0) implies #[trigger] step_state_ok(
            v,
            nodes,
            ci + 1,
            cutoff(v[i].1, 0),
            i,
            j,
        ) by {
            if i == ci {
                assert(step_state_ok(v, nodes, ci + 1, idx, ci, j));
            }
        }
        assert forall|nm: Seq<char>, k2: int, it: bool| #[trigger]
            parked_pair(mcur, Some(nm), k2, it) == awaiting_named(v, nm, k2, it, ci + 1, ci + 1, 0) by {
            assert(parked_pair(mcur, Some(nm), k2, it) == awaiting_named(
                v,
                nm,
                k2,
                it,
                ci + 1,
                ci,
                idx,
            ));
            if awaiting_named(v, nm, k2, it, ci + 1, ci, idx) {
                let (wi, wj) = choose|wi: int, wj: int|
                    processed_step(v, ci, idx, wi, wj) && k2 == node_base(v, wi) + wj && (if it {
                        (#[trigger] v[wi].1[wj]).then_dest
                    } else {
                        v[wi].1[wj].else_dest
                    }) == Some(nm);
                assert(processed_step(v, ci + 1, 0, wi, wj));
            }
            if awaiting_named(v, nm, k2, it, ci + 1, ci + 1, 0) {
                let (wi, wj) = choose|wi: int, wj: int|
                    processed_step(v, ci + 1, 0, wi, wj) && k2 == node_base(v, wi) + wj && (if it {
                        (#[trigger] v[wi].1[wj]).then_dest
                    } else {
                        v[wi].1[wj].else_dest
                    }) == Some(nm);
                assert(processed_step(v, ci, idx, wi, wj));
            }
        }
        assert forall|k2: int, it: bool| #[trigger]
            parked_pair(mcur, None::<Seq<char>>, k2, it) == awaiting_none(
            v,
            k2,
            it,
            ci + 1,
            ci + 1,
            0,
        ) by {
            assert(parked_pair(mcur, None::<Seq<char>>, k2, it) == awaiting_none(
                v,
                k2,
                it,
                ci + 1,
                ci,
                idx,
            ));
            if awaiting_none(v, k2, it, ci + 1, ci, idx) {
                let (wi, wj) = choose|wi: int, wj: int|
                    processed_step(v, ci, idx, wi, wj) && k2 == node_base(v, wi) + wj && (
                    #[trigger] v[wi].1[wj]).else_dest is None && (match next_nonempty(v, wi) {
                        Some(i2) => i2 >= ci + 1,
                        None => true,
                    });
                assert(processed_step(v, ci + 1, 0, wi, wj));
            }
            if awaiting_none(v, k2, it, ci + 1, ci + 1, 0) {
                let (wi, wj) = choose|wi: int, wj: int|
                    processed_step(v, ci + 1, 0, wi, wj) && k2 == node_base(v, wi) + wj && (
                    #[trigger] v[wi].1[wj]).else_dest is None && (match next_nonempty(v, wi) {
                        Some(i2) => i2 >= ci + 1,
                        None => true,
                    });
                assert(processed_step(v, ci, idx, wi, wj));
            }
        }
    }
}

/// Once every chain is compiled, every edge is resolved as the linking
/// rules place it.
proof fn lemma_final_graph(v: Seq<(Seq<char>, Seq<StepView>)>, nodes: Seq<Node>)
    requires
        config_buildable(v),
        nodes.len() == node_base(v, v.len() as int),
        prefix_state_ok(v, nodes, v.len() as int, v.len() as int),
    ensures
        forall|i: int, j: int|
            0 <= i < v.len() && 0 <= j < cutoff(v[i].1, 0) ==> {
                let k = node_base(v, i) + j;
                &&& 0 <= k < nodes.len()
                &&& spec_module_built((#[trigger] v[i].1[j]).module, v[i].1[j].args, nodes[k].module)
                &&& nodes[k].name@ == spec_node_name(v, i, j)
                &&& edge_view(nodes[k].then_dest) == spec_then_edge(v, i, j)
                &&& edge_view(nodes[k].else_dest) == spec_else_edge(v, i, j)
            },
{
    assert forall|i: int, j: int|
        0 <= i < v.len() && 0 <= j < cutoff(v[i].1, 0) implies {
        let k = node_base(v, i) + j;
        &&& 0 <= k < nodes.len()
        &&& spec_module_built((#[trigger] v[i].1[j]).module, v[i].1[j].args, nodes[k].module)
        &&& nodes[k].name@ == spec_node_name(v, i, j)
        &&& edge_view(nodes[k].then_dest) == spec_then_edge(v, i, j)
        &&& edge_view(nodes[k].else_dest) == spec_else_edge(v, i, j)
    } by {
        assert(step_state_ok(v, nodes, v.len() as int, cutoff(v[i].1, 0), i, j));
        let k = node_base(v, i) + j;
        lemma_cutoff_bounds(v[i].1, 0);
        lemma_node_base_nonneg(v, i);
        lemma_node_base_bounds(v, i + 1, v.len() as int);
        assert(node_base(v, i + 1) == node_base(v, i) + cutoff(v[i].1, 0));
        match v[i].1[j].then_dest {
            Some(nm) => {
                assert(ref_resolvable(v, i, v[i].1[j].then_dest));
                let i2 = choose|i2: int|
                    i < i2 < v.len() && (#[trigger] v[i2]).0 == nm && v[i2].1.len() > 0;
                assert(chain_started(v, v.len() as int, nm));
            },
            None => {},
        }
        match v[i].1[j].else_dest {
            Some(nm) => {
                assert(ref_resolvable(v, i, v[i].1[j].else_dest));
                let i2 = choose|i2: int|
                    i < i2 < v.len() && (#[trigger] v[i2]).0 == nm && v[i2].1.len() > 0;
                assert(chain_started(v, v.len() as int, nm));
            },
            None => {
                lemma_next_nonempty(v, i);
            },
        }
    }
}

/// The compiled pipeline: a flat node vector whose jumps all lead forward.
pub struct Workflow {
    nodes: Vec<Node>,
}

impl Workflow {
    /// At least one node, every module well-formed, every jump forward and
    /// in range.
    pub closed spec fn wf(self) -> bool {
        &&& self.nodes@.len() >= 1
        &&& forall|k: int|
            0 <= k < self.nodes@.len() ==> node_ok(
                #[trigger] self.nodes@[k],
                k,
                self.nodes@.len() as int,
            )
    }

    /// The number of compiled nodes.
    pub closed spec fn spec_node_count(self) -> nat {
        self.nodes@.len()
    }

    /// The nodes as the contracts see them.
    pub closed spec fn spec_nodes(self) -> Seq<NodeView> {
        Seq::new(
            self.nodes@.len(),
            |i: int|
                NodeView {
                    name: self.nodes@[i].name@,
                    module: self.nodes@[i].module,
                    then_dest: edge_view(self.nodes@[i].then_dest),
                    else_dest: edge_view(self.nodes@[i].else_dest),
                },
        )
    }

    pub fn node_count(&self) -> (r: usize)
        ensures
            r == self.spec_node_count(),
    {
        self.nodes.len()
    }

    /// The display name of a node: `chain[index]:module`.
    pub fn node_name(&self, i: usize) -> (r: &str)
        requires
            i < self.spec_node_count(),
    {
        self.nodes[i].name.as_str()
    }

    /// A node's success jump; `None` is the terminal marker.
    pub fn node_then(&self, i: usize) -> (r: Option<usize>)
        requires
            i < self.spec_node_count(),
        ensures
            self.wf() ==> match r {
                Some(t) => i < t < self.spec_node_count(),
                None => true,
            },
    {
        proof {
            if self.wf() {
                assert(node_ok(self.nodes@[i as int], i as int, self.nodes@.len() as int));
            }
        }
        self.nodes[i].then_dest
    }

    /// A node's failure jump; `None` is the terminal marker.
    pub fn node_else(&self, i: usize) -> (r: Option<usize>)
        requires
            i < self.spec_node_count(),
        ensures
            self.wf() ==> match r {
                Some(t) => i < t < self.spec_node_count(),
                None => true,
            },
    {
        proof {
            if self.wf() {
                assert(node_ok(self.nodes@[i as int], i as int, self.nodes@.len() as int));
            }
        }
        self.nodes[i].else_dest
    }

    /// Compiles the chains into the flat node vector. On success the
    /// workflow is well-formed — every non-terminal jump lands in range,
    /// ahead of its node — and the configuration had no loop among its
    /// compiled steps; and the build succeeds on every buildable
    /// configuration.
    #[verifier::rlimit(100)]
    pub fn build(conf: Config) -> (r: Result<Workflow, Error>)
        requires
            conf.wf(),
        ensures
            match r {
                Ok(w) => w.wf() && !config_cyclic(conf@),
                Err(e) => build_failure(conf@, e.message@),
            },
            config_empty(conf@) ==> r is Err,
            config_buildable(conf@) ==> r is Ok && compiled_graph(conf@, r->Ok_0.spec_nodes()),
    {
        let ghost v = conf@;
        let acts: &Vec<(String, Chain)> = &conf.actions;
        proof {
            assert(actions_view(acts@) == v);
        }
        let mut seen: Vec<String> = Vec::new();
        let mut nodes: Vec<Node> = Vec::new();
        let mut dangling: DanglingInfo = Vec::new();
        let mut ci: usize = 0;
        proof {
            assert(dangling_view(dangling@) =~= Seq::<
                (Option<Seq<char>>, Seq<(int, bool)>),
            >::empty());
            assert(seen_view(seen@) =~= chain_names(v).subrange(0, 0));
        }
        while ci < acts.len()
            invariant
                v == conf@,
                v == actions_view(acts@),
                forall|i: int, j: int|
                    0 <= i < acts@.len() && 0 <= j < acts@[i].1@.len()
                        ==> (#[trigger] acts@[i].1@[j]).args.wf(),
                ci <= acts@.len(),
                v.len() == acts@.len(),
                seen_view(seen@) == chain_names(v).subrange(0, ci as int),
                distinct_keys(dangling_view(dangling@)),
                forall|k: int|
                    0 <= k < nodes@.len() ==> node_ok(
                        #[trigger] nodes@[k],
                        k,
                        nodes@.len() as int,
                    ),
                parked_ok(assoc_map(dangling_view(dangling@)), nodes@.len() as int),
                forall|i: int, j: int|
                    0 <= i < ci && 0 <= j < cutoff(v[i].1, 0) ==> !back_ref(
                        v,
                        i,
                        (#[trigger] v[i].1[j]).then_dest,
                    ) && !back_ref(v, i, v[i].1[j].else_dest),
                (exists|i: int| 0 <= i < ci && (#[trigger] v[i]).1.len() > 0) ==> nodes@.len()
                    > 0,
                (forall|i: int| 0 <= i < ci ==> (#[trigger] v[i]).1.len() == 0) ==> nodes@.len()
                    == 0,
                forall|nm: Seq<char>| #[trigger]
                    assoc_map(dangling_view(dangling@)).contains_key(Some(nm)) ==> key_cause(
                        v,
                        nm,
                        ci as int,
                    ),
                config_buildable(v) ==> parked_resolvable(
                    assoc_map(dangling_view(dangling@)),
                    v,
                    ci as int,
                ),
                config_buildable(v) ==> nodes@.len() == node_base(v, ci as int),
                config_buildable(v) ==> prefix_state_ok(v, nodes@, ci as int, ci as int),
                config_buildable(v) ==> buckets_state_ok(
                    v,
                    assoc_map(dangling_view(dangling@)),
                    ci as int,
                    ci as int,
                    0,
                ),
            decreases acts@.len() - ci,
        {
            let chain_name: &String = &acts[ci].0;
            proof {
                assert(actions_view(acts@)[ci as int] == (
                    acts@[ci as int].0@,
                    chain_view(acts@[ci as int].1@),
                ));
            }
            let ghost seen_pre = seen@;
            seen.push(chain_name.clone());
            proof {
                assert(seen_view(seen_pre).len() == seen_pre.len());
                assert(seen_view(seen@).len() == seen@.len());
                assert(chain_names(v).len() == v.len());
                assert(seen_pre.len() == ci as int);
                assert forall|j: int|
                    0 <= j < ci + 1 implies #[trigger] seen_view(seen@)[j] == chain_names(
                    v,
                ).subrange(0, ci + 1)[j] by {
                    assert(chain_names(v)[j] == v[j].0);
                    assert(seen_view(seen@)[j] == seen@[j]@);
                    if j < ci {
                        assert(seen@[j] == seen_pre[j]);
                        assert(seen_view(seen_pre)[j] == seen_pre[j]@);
                        assert(seen_view(seen_pre)[j] == chain_names(v).subrange(0, ci as int)[j]);
                    }
                }
                assert(seen_view(seen@) =~= chain_names(v).subrange(0, ci + 1));
            }
            let chain_len: usize = acts[ci].1.len();
            let ghost cv = v[ci as int].1;
            let mut idx: usize = 0;
            let mut broke: bool = false;
            while idx < chain_len && !broke
                invariant
                    v == conf@,
                    v == actions_view(acts@),
                    forall|i: int, j: int|
                        0 <= i < acts@.len() && 0 <= j < acts@[i].1@.len()
                            ==> (#[trigger] acts@[i].1@[j]).args.wf(),
                    ci < acts@.len(),
                    v.len() == acts@.len(),
                    cv == v[ci as int].1,
                    cv == chain_view(acts@[ci as int].1@),
                    v[ci as int].0 == acts@[ci as int].0@,
                    chain_name@ == v[ci as int].0,
                    chain_len == cv.len(),
                    chain_len == acts@[ci as int].1@.len(),
                    idx <= chain_len,
                    seen_view(seen@) == chain_names(v).subrange(0, ci + 1),
                    distinct_keys(dangling_view(dangling@)),
                    forall|k: int|
                        0 <= k < nodes@.len() ==> node_ok(
                            #[trigger] nodes@[k],
                            k,
                            nodes@.len() as int,
                        ),
                    parked_ok(assoc_map(dangling_view(dangling@)), nodes@.len() as int),
                    forall|i: int, j: int|
                        0 <= i < ci && 0 <= j < cutoff(v[i].1, 0) ==> !back_ref(
                            v,
                            i,
                            (#[trigger] v[i].1[j]).then_dest,
                        ) && !back_ref(v, i, v[i].1[j].else_dest),
                    forall|j: int|
                        0 <= j < idx ==> !back_ref(v, ci as int, (#[trigger] cv[j]).then_dest)
                            && !back_ref(v, ci as int, cv[j].else_dest),
                    !broke ==> forall|j: int| 0 <= j < idx ==> (#[trigger] cv[j]).then_dest is None,
                    broke ==> cutoff(cv, 0) == idx,
                    broke ==> idx > 0,
                    idx > 0 ==> nodes@.len() > 0,
                    (forall|i: int| 0 <= i < ci ==> (#[trigger] v[i]).1.len() == 0)
                        ==> nodes@.len() == idx as int,
                    idx > 0 ==> !assoc_map(dangling_view(dangling@)).contains_key(
                        Some(v[ci as int].0),
                    ),
                    (exists|i: int| 0 <= i < ci && (#[trigger] v[i]).1.len() > 0) ==> nodes@.len()
                        > 0,
                    forall|nm: Seq<char>| #[trigger]
                        assoc_map(dangling_view(dangling@)).contains_key(Some(nm)) ==> key_cause(
                            v,
                            nm,
                            if idx > 0 {
                                ci + 1
                            } else {
                                ci as int
                            },
                        ),
                    config_buildable(v) ==> parked_resolvable(
                        assoc_map(dangling_view(dangling@)),
                        v,
                        if idx > 0 {
                            ci + 1
                        } else {
                            ci as int
                        },
                    ),
                    config_buildable(v) ==> nodes@.len() == node_base(v, ci as int) + idx,
                    config_buildable(v) ==> prefix_state_ok(
                        v,
                        nodes@,
                        if idx > 0 {
                            ci + 1
                        } else {
                            ci as int
                        },
                        ci as int,
                    ),
                    config_buildable(v) ==> (forall|j: int|
                        0 <= j < idx ==> #[trigger] step_state_ok(
                            v,
                            nodes@,
                            ci + 1,
                            idx as int,
                            ci as int,
                            j,
                        )),
                    config_buildable(v) ==> buckets_state_ok(
                        v,
                        assoc_map(dangling_view(dangling@)),
                        if idx > 0 {
                            ci + 1
                        } else {
                            ci as int
                        },
                        ci as int,
                        idx as int,
                    ),
                decreases chain_len - idx + (if broke {
                    0int
                } else {
                    1int
                }),
            {
                proof {
                    lemma_cutoff_bounds(cv, idx as int);
                    lemma_cutoff_prefix(cv, 0, idx as int);
                    assert(chain_view(acts@[ci as int].1@)[idx as int] == acts@[ci as int].1@[idx as int]@);
                    assert(v[ci as int].1[idx as int] == cv[idx as int]);
                }
                let next_node_u: usize = nodes.len();
                let ghost m_in = assoc_map(dangling_view(dangling@));
                let ghost nodes_in = nodes@;
                let ghost cnv: Seq<char> = chain_name@;
                let ghost b1: Seq<(int, bool)> = if m_in.contains_key(Some(cnv)) {
                    m_in[Some(cnv)]
                } else {
                    Seq::empty()
                };
                if idx == 0 {
                    proof {
                        assert forall|k: int|
                            0 <= k < nodes@.len() implies node_ok_pending(
                            #[trigger] nodes@[k],
                            k,
                            nodes@.len() as int,
                        ) by {
                            assert(node_ok(nodes@[k], k, nodes@.len() as int));
                        }
                    }
                    match take_bucket(&mut dangling, Some(chain_name.as_str())) {
                        Some(bucket) => {
                            proof {
                                assert forall|pi: int|
                                    0 <= pi < bucket@.len() implies 0 <= (
                                #[trigger] bucket@[pi]).0 < nodes@.len() by {
                                    assert(bucket_view(bucket@)[pi] == (
                                        bucket@[pi].0 as int,
                                        bucket@[pi].1,
                                    ));
                                    assert(m_in[Some(chain_name@)][pi].0 < nodes@.len());
                                }
                                lemma_parked_remove(m_in, Some(chain_name@), nodes@.len() as int);
                            }
                            resolve_bucket(&mut nodes, &bucket, next_node_u);
                            proof {
                                lemma_pairs_bridge(bucket@, b1);
                            }
                        },
                        None => {
                            proof {
                                assert(b1 =~= Seq::<(int, bool)>::empty());
                            }
                        },
                    }
                    proof {
                        assert(forall|k: int|
                            0 <= k < nodes@.len() ==> {
                                &&& (#[trigger] nodes@[k]).module == nodes_in[k].module
                                &&& nodes@[k].name == nodes_in[k].name
                                &&& nodes@[k].then_dest == (if (exists|pi: int|
                                    0 <= pi < b1.len() && #[trigger] b1[pi] == (k, true)) {
                                    Some(next_node_u)
                                } else {
                                    nodes_in[k].then_dest
                                })
                                &&& nodes@[k].else_dest == (if (exists|pi: int|
                                    0 <= pi < b1.len() && #[trigger] b1[pi] == (k, false)) {
                                    Some(next_node_u)
                                } else {
                                    nodes_in[k].else_dest
                                })
                            });
                        assert(assoc_map(dangling_view(dangling@)) =~= m_in.remove(Some(cnv)));
                    }
                    let ghost m_mid = assoc_map(dangling_view(dangling@));
                    let ghost nodes_mid = nodes@;
                    let ghost b2: Seq<(int, bool)> = if m_mid.contains_key(None) {
                        m_mid[None]
                    } else {
                        Seq::empty()
                    };
                    match take_bucket(&mut dangling, None) {
                        Some(bucket) => {
                            proof {
                                assert forall|pi: int|
                                    0 <= pi < bucket@.len() implies 0 <= (
                                #[trigger] bucket@[pi]).0 < nodes@.len() by {
                                    assert(bucket_view(bucket@)[pi] == (
                                        bucket@[pi].0 as int,
                                        bucket@[pi].1,
                                    ));
                                    assert(m_mid[None][pi].0 < nodes@.len());
                                }
                                lemma_parked_remove(m_mid, None, nodes@.len() as int);
                            }
                            resolve_bucket(&mut nodes, &bucket, next_node_u);
                            proof {
                                lemma_pairs_bridge(bucket@, b2);
                            }
                        },
                        None => {
                            proof {
                                assert(b2 =~= Seq::<(int, bool)>::empty());
                            }
                        },
                    }
                    proof {
                        assert(forall|k: int|
                            0 <= k < nodes@.len() ==> {
                                &&& (#[trigger] nodes@[k]).module == nodes_mid[k].module
                                &&& nodes@[k].name == nodes_mid[k].name
                                &&& nodes@[k].then_dest == (if (exists|pi: int|
                                    0 <= pi < b2.len() && #[trigger] b2[pi] == (k, true)) {
                                    Some(next_node_u)
                                } else {
                                    nodes_mid[k].then_dest
                                })
                                &&& nodes@[k].else_dest == (if (exists|pi: int|
                                    0 <= pi < b2.len() && #[trigger] b2[pi] == (k, false)) {
                                    Some(next_node_u)
                                } else {
                                    nodes_mid[k].else_dest
                                })
                            });
                        assert(assoc_map(dangling_view(dangling@)) =~= m_in.remove(Some(cnv)).remove(
                            None,
                        ));
                        if config_buildable(v) {
                            lemma_resolution_state(
                                v,
                                nodes_in,
                                nodes_mid,
                                nodes@,
                                m_in,
                                b1,
                                b2,
                                ci as int,
                                cnv,
                                next_node_u,
                            );
                        }
                    }
                } else {
                    let last: usize = next_node_u - 1;
                    let ghost pre = nodes@;
                    nodes[last].then_dest = Some(next_node_u);
                    proof {
                        assert forall|k: int|
                            0 <= k < nodes@.len() implies node_ok_pending(
                            #[trigger] nodes@[k],
                            k,
                            nodes@.len() as int,
                        ) by {
                            if k != last {
                                assert(nodes@[k] == pre[k]);
                                assert(node_ok(pre[k], k, pre.len() as int));
                            }
                        }
                        if config_buildable(v) {
                            assert forall|i: int, j: int|
                                0 <= i < ci && 0 <= j < cutoff(v[i].1, 0) implies
                                #[trigger] step_state_ok(
                                v,
                                nodes@,
                                ci + 1,
                                cutoff(v[i].1, 0),
                                i,
                                j,
                            ) by {
                                assert(step_state_ok(v, pre, ci + 1, cutoff(v[i].1, 0), i, j));
                                lemma_cutoff_bounds(v[i].1, 0);
                                lemma_node_base_bounds(v, 0, i);
                                lemma_node_base_bounds(v, i + 1, ci as int);
                                assert(node_base(v, i + 1) == node_base(v, i) + cutoff(v[i].1, 0));
                                assert(node_base(v, i) + j < node_base(v, ci as int));
                                assert(nodes@[node_base(v, i) + j] == pre[node_base(v, i) + j]);
                            }
                            assert forall|j: int|
                                0 <= j < idx implies #[trigger] step_state_ok(
                                v,
                                nodes@,
                                ci + 1,
                                idx + 1,
                                ci as int,
                                j,
                            ) by {
                                assert(step_state_ok(v, pre, ci + 1, idx as int, ci as int, j));
                                lemma_node_base_nonneg(v, ci as int);
                                if j < idx - 1 {
                                    assert(nodes@[node_base(v, ci as int) + j] == pre[node_base(
                                        v,
                                        ci as int,
                                    ) + j]);
                                } else {
                                    assert(v[ci as int].1[j].then_dest is None);
                                    assert(node_base(v, ci as int) + j == last as int);
                                }
                            }
                        }
                    }
                }
                let mut node_name: String = chain_name.clone();
                node_name.append("[");
                let dec: String = u64_to_dec(idx as u64);
                node_name.append(dec.as_str());
                node_name.append("]:");
                node_name.append(acts[ci].1[idx].module.as_str());
                let args: ModuleArgs = acts[ci].1[idx].args.clone();
                let module: Module = match Module::new(acts[ci].1[idx].module.as_str(), args) {
                    Ok(m) => m,
                    Err(e) => {
                        proof {
                            assert(0 <= idx < cutoff(v[ci as int].1, 0));
                            assert(!spec_module_ok(
                                (v[ci as int].1[idx as int]).module,
                                v[ci as int].1[idx as int].args,
                            ));
                            if config_buildable(v) {
                                assert(false);
                            }
                        }
                        let mut msg: String = String::from_str("Module ");
                        msg.append(node_name.as_str());
                        msg.append(" could not be created: ");
                        msg.append(e.text());
                        proof {
                            assert(msg@.subrange(0, "Module "@.len() as int) =~= "Module "@);
                            assert(build_failure(v, msg@));
                        }
                        return Err(Error::new(msg));
                    },
                };
                let ghost m0 = assoc_map(dangling_view(dangling@));
                let ghost tdest = v[ci as int].1[idx as int].then_dest;
                let ghost edest = v[ci as int].1[idx as int].else_dest;
                proof {
                    if idx == 0 {
                        assert(forall|nm: Seq<char>| #[trigger]
                            m0.contains_key(Some(nm)) ==> m_in.contains_key(Some(nm)) && nm
                                != chain_name@);
                    }
                }
                let mut then_was_used: bool = false;
                match &acts[ci].1[idx].then_dest {
                    Some(c) => {
                        if seen_contains(&seen, c.as_str()) {
                            proof {
                                let wi = choose|i: int|
                                    0 <= i < seen_view(seen@).len() && #[trigger] seen_view(
                                        seen@,
                                    )[i] == c@;
                                assert(chain_names(v).subrange(0, ci + 1)[wi] == c@);
                                lemma_seen_back_ref(v, ci as int, c@);
                                if config_buildable(v) {
                                    assert(0 <= idx < cutoff(v[ci as int].1, 0));
                                    assert(ref_resolvable(v, ci as int, cv[idx as int].then_dest));
                                    let i2 = choose|i2: int|
                                        ci < i2 < v.len() && (#[trigger] v[i2]).0 == c@ && v[i2].1.len()
                                            > 0;
                                    let i3 = choose|i3: int|
                                        0 <= i3 <= ci && (#[trigger] v[i3]).0 == c@;
                                    assert(v[i3].0 == v[i2].0);
                                    assert(false);
                                }
                            }
                            let mut msg: String = String::from_str("Configuration loop at ");
                            msg.append(node_name.as_str());
                            msg.append(":then");
                            proof {
                                assert(0 <= idx < cutoff(v[ci as int].1, 0));
                                assert(node_name@ =~= spec_node_name(v, ci as int, idx as int));
                                assert(msg@ =~= "Configuration loop at "@ + spec_node_name(
                                    v,
                                    ci as int,
                                    idx as int,
                                ) + ":then"@);
                                assert(back_ref(v, ci as int, v[ci as int].1[idx as int].then_dest));
                                assert(build_failure(v, msg@));
                            }
                            return Err(Error::new(msg));
                        }
                        proof {
                            lemma_seen_back_ref(v, ci as int, c@);
                            if back_ref(v, ci as int, Some(c@)) {
                                let wi = choose|i: int|
                                    0 <= i < chain_names(v).subrange(0, ci + 1).len()
                                        && #[trigger] chain_names(v).subrange(0, ci + 1)[i] == c@;
                                assert(seen_view(seen@)[wi] == c@);
                                assert(false);
                            }
                            lemma_parked_grow(
                                m0,
                                next_node_u as int,
                                next_node_u as int + 1,
                            );
                            lemma_parked_park(
                                m0,
                                Some(c@),
                                (next_node_u as int, true),
                                next_node_u as int + 1,
                            );
                        }
                        node_wants_chain(next_node_u, true, &mut dangling, Some(c.clone()));
                        then_was_used = true;
                    },
                    None => {
                        proof {
                            lemma_parked_grow(m0, next_node_u as int, next_node_u as int + 1);
                        }
                    },
                }
                let ghost m1 = assoc_map(dangling_view(dangling@));
                match &acts[ci].1[idx].else_dest {
                    Some(c) => {
                        if seen_contains(&seen, c.as_str()) {
                            proof {
                                let wi = choose|i: int|
                                    0 <= i < seen_view(seen@).len() && #[trigger] seen_view(
                                        seen@,
                                    )[i] == c@;
                                assert(chain_names(v).subrange(0, ci + 1)[wi] == c@);
                                lemma_seen_back_ref(v, ci as int, c@);
                                if config_buildable(v) {
                                    assert(0 <= idx < cutoff(v[ci as int].1, 0));
                                    assert(ref_resolvable(v, ci as int, cv[idx as int].else_dest));
                                    let i2 = choose|i2: int|
                                        ci < i2 < v.len() && (#[trigger] v[i2]).0 == c@ && v[i2].1.len()
                                            > 0;
                                    let i3 = choose|i3: int|
                                        0 <= i3 <= ci && (#[trigger] v[i3]).0 == c@;
                                    assert(v[i3].0 == v[i2].0);
                                    assert(false);
                                }
                            }
                            let mut msg: String = String::from_str("Configuration loop at ");
                            msg.append(node_name.as_str());
                            msg.append(":else");
                            proof {
                                assert(0 <= idx < cutoff(v[ci as int].1, 0));
                                assert(node_name@ =~= spec_node_name(v, ci as int, idx as int));
                                assert(msg@ =~= "Configuration loop at "@ + spec_node_name(
                                    v,
                                    ci as int,
                                    idx as int,
                                ) + ":else"@);
                                assert(back_ref(v, ci as int, v[ci as int].1[idx as int].else_dest));
                                assert(build_failure(v, msg@));
                            }
                            return Err(Error::new(msg));
                        }
                        proof {
                            lemma_seen_back_ref(v, ci as int, c@);
                            if back_ref(v, ci as int, Some(c@)) {
                                let wi = choose|i: int|
                                    0 <= i < chain_names(v).subrange(0, ci + 1).len()
                                        && #[trigger] chain_names(v).subrange(0, ci + 1)[i] == c@;
                                assert(seen_view(seen@)[wi] == c@);
                                assert(false);
                            }
                            lemma_parked_park(
                                m1,
                                Some(c@),
                                (next_node_u as int, false),
                                next_node_u as int + 1,
                            );
                        }
                        node_wants_chain(next_node_u, false, &mut dangling, Some(c.clone()));
                    },
                    None => {
                        proof {
                            lemma_parked_park(
                                m1,
                                None,
                                (next_node_u as int, false),
                                next_node_u as int + 1,
                            );
                        }
                        node_wants_chain(next_node_u, false, &mut dangling, None);
                    },
                }
                let ghost pre_push = nodes@;
                let ghost mfin = assoc_map(dangling_view(dangling@));
                proof {
                    assert(!back_ref(v, ci as int, v[ci as int].1[idx as int].then_dest));
                    assert(!back_ref(v, ci as int, v[ci as int].1[idx as int].else_dest));
                    let mfin = assoc_map(dangling_view(dangling@));
                    assert forall|nm: Seq<char>| #[trigger]
                        mfin.contains_key(Some(nm)) implies key_cause(v, nm, ci + 1) by {
                        let tdest = v[ci as int].1[idx as int].then_dest;
                        let edest = v[ci as int].1[idx as int].else_dest;
                        if tdest == Some(nm) || edest == Some(nm) {
                            assert(0 <= idx < cutoff(v[ci as int].1, 0));
                            assert(forall|i2: int|
                                0 <= i2 < ci + 1 ==> !((#[trigger] v[i2]).0 == nm && v[i2].1.len()
                                    > 0));
                        } else {
                            assert(m0.contains_key(Some(nm)));
                            if idx == 0 {
                                assert(m_in.contains_key(Some(nm)) && nm != chain_name@);
                                assert(key_cause(v, nm, ci as int));
                                assert(forall|i2: int|
                                    0 <= i2 < ci + 1 ==> !((#[trigger] v[i2]).0 == nm
                                        && v[i2].1.len() > 0));
                            } else {
                                assert(key_cause(v, nm, ci + 1));
                            }
                        }
                    }
                }
                nodes.push(Node { name: node_name, module, then_dest: None, else_dest: None });
                proof {
                    assert forall|k: int|
                        0 <= k < nodes@.len() implies node_ok(
                        #[trigger] nodes@[k],
                        k,
                        nodes@.len() as int,
                    ) by {
                        if k < pre_push.len() {
                            assert(nodes@[k] == pre_push[k]);
                            assert(node_ok_pending(pre_push[k], k, pre_push.len() as int));
                        }
                    }
                    if config_buildable(v) {
                        assert(pre_push.len() == node_base(v, ci as int) + idx);
                        // the prefix chains keep their state
                        assert forall|i: int, j: int|
                            0 <= i < ci && 0 <= j < cutoff(v[i].1, 0) implies
                            #[trigger] step_state_ok(
                            v,
                            nodes@,
                            ci + 1,
                            cutoff(v[i].1, 0),
                            i,
                            j,
                        ) by {
                            assert(step_state_ok(v, pre_push, ci + 1, cutoff(v[i].1, 0), i, j));
                            assert(nodes@[node_base(v, i) + j] == pre_push[node_base(v, i) + j]);
                        }
                        // the steps of this chain done so far keep theirs
                        assert forall|j: int|
                            0 <= j < idx + 1 implies #[trigger] step_state_ok(
                            v,
                            nodes@,
                            ci + 1,
                            idx + 1,
                            ci as int,
                            j,
                        ) by {
                            lemma_node_base_nonneg(v, ci as int);
                            if j < idx {
                                assert(step_state_ok(v, pre_push, ci + 1, idx + 1, ci as int, j));
                                assert(nodes@[node_base(v, ci as int) + j] == pre_push[node_base(
                                    v,
                                    ci as int,
                                ) + j]);
                            } else {
                                let k = node_base(v, ci as int) + idx;
                                assert(nodes@[k] == Node {
                                    name: node_name,
                                    module,
                                    then_dest: None,
                                    else_dest: None,
                                });
                                assert(node_name@ =~= spec_node_name(v, ci as int, idx as int));
                                match v[ci as int].1[idx as int].then_dest {
                                    Some(nm) => {
                                        assert(!chain_started(v, ci + 1, nm)) by {
                                            if chain_started(v, ci + 1, nm) {
                                                let i2 = choose|i2: int|
                                                    0 <= i2 < ci + 1 && (#[trigger] v[i2]).0 == nm
                                                        && v[i2].1.len() > 0;
                                                assert(back_ref(
                                                    v,
                                                    ci as int,
                                                    v[ci as int].1[idx as int].then_dest,
                                                ));
                                            }
                                        }
                                    },
                                    None => {},
                                }
                                match v[ci as int].1[idx as int].else_dest {
                                    Some(nm) => {
                                        assert(!chain_started(v, ci + 1, nm)) by {
                                            if chain_started(v, ci + 1, nm) {
                                                let i2 = choose|i2: int|
                                                    0 <= i2 < ci + 1 && (#[trigger] v[i2]).0 == nm
                                                        && v[i2].1.len() > 0;
                                                assert(back_ref(
                                                    v,
                                                    ci as int,
                                                    v[ci as int].1[idx as int].else_dest,
                                                ));
                                            }
                                        }
                                    },
                                    None => {
                                        lemma_next_nonempty(v, ci as int);
                                    },
                                }
                            }
                        }
                        // the waiting table holds exactly the unresolved edges
                        assert(0 <= idx < cutoff(v[ci as int].1, 0));
                        {
                            let nxt: int = next_node_u as int;
                            assert(match tdest {
                                Some(nm) => m1 == m0.insert(
                                    Some(nm),
                                    (if m0.contains_key(Some(nm)) {
                                        m0[Some(nm)]
                                    } else {
                                        Seq::<(int, bool)>::empty()
                                    }).push((nxt, true)),
                                ),
                                None => m1 == m0,
                            });
                            assert(match edest {
                                Some(nm) => mfin == m1.insert(
                                    Some(nm),
                                    (if m1.contains_key(Some(nm)) {
                                        m1[Some(nm)]
                                    } else {
                                        Seq::<(int, bool)>::empty()
                                    }).push((nxt, false)),
                                ),
                                None => mfin == m1.insert(
                                    None,
                                    (if m1.contains_key(None::<Seq<char>>) {
                                        m1[None::<Seq<char>>]
                                    } else {
                                        Seq::<(int, bool)>::empty()
                                    }).push((nxt, false)),
                                ),
                            });
                            lemma_parks_state(
                                v,
                                m0,
                                m1,
                                mfin,
                                ci as int,
                                idx as int,
                                nxt,
                                tdest,
                                edest,
                            );
                        }
                    }
                    lemma_parked_grow(
                        assoc_map(dangling_view(dangling@)),
                        nodes@.len() as int - 1 + 1,
                        nodes@.len() as int,
                    );
                    if config_buildable(v) {
                        assert forall|nm: Seq<char>| #[trigger]
                            assoc_map(dangling_view(dangling@)).contains_key(Some(nm)) implies exists|
                            i2: int,
                        |
                            ci + 1 <= i2 < v.len() && (#[trigger] v[i2]).0 == nm && v[i2].1.len()
                                > 0 by {
                            if m1.contains_key(Some(nm)) && (m0.contains_key(Some(nm))
                                || !then_was_used || nm != cv[idx as int].then_dest->0) {
                            }
                            let dest_then = cv[idx as int].then_dest;
                            let dest_else = cv[idx as int].else_dest;
                            if m0.contains_key(Some(nm)) {
                                if idx > 0 {
                                } else {
                                    let i2 = choose|i2: int|
                                        ci <= i2 < v.len() && (#[trigger] v[i2]).0 == nm
                                            && v[i2].1.len() > 0;
                                    if i2 == ci {
                                        assert(v[ci as int].1.len() > 0);
                                        assert(!m_in.contains_key(Some(v[ci as int].0)));
                                        assert(false);
                                    }
                                }
                            } else {
                                assert(0 <= idx < cutoff(v[ci as int].1, 0));
                                if dest_then == Some(nm) && !back_ref(v, ci as int, dest_then) {
                                    assert(ref_resolvable(v, ci as int, dest_then));
                                } else if dest_else == Some(nm) && !back_ref(
                                    v,
                                    ci as int,
                                    dest_else,
                                ) {
                                    assert(ref_resolvable(v, ci as int, dest_else));
                                }
                            }
                        }
                    }
                }
                idx = idx + 1;
                proof {
                    assert(!assoc_map(dangling_view(dangling@)).contains_key(
                        Some(v[ci as int].0),
                    )) by {
                        let nm0 = v[ci as int].0;
                        if assoc_map(dangling_view(dangling@)).contains_key(Some(nm0)) {
                            if !m1.contains_key(Some(nm0)) || !m0.contains_key(Some(nm0)) {
                                assert(back_ref(v, ci as int, Some(nm0)));
                                assert(!back_ref(v, ci as int, cv[idx - 1].then_dest));
                                assert(!back_ref(v, ci as int, cv[idx - 1].else_dest));
                            }
                            if m0.contains_key(Some(nm0)) {
                                if idx - 1 > 0 {
                                } else {
                                    assert(m_in.contains_key(Some(nm0)));
                                }
                            }
                        }
                    }
                }
                if then_was_used {
                    broke = true;
                    proof {
                        assert(cutoff(cv, idx - 1) == idx);
                        lemma_cutoff_prefix(cv, 0, idx - 1);
                    }
                }
            }
            proof {
                if !broke {
                    lemma_cutoff_prefix(cv, 0, idx as int);
                }
                assert(cutoff(cv, 0) == idx);
                if config_buildable(v) {
                    let mcur = assoc_map(dangling_view(dangling@));
                    assert(node_base(v, ci + 1) == node_base(v, ci as int) + cutoff(cv, 0));
                    if idx == 0 {
                        assert(chain_len == 0);
                    }
                    lemma_chain_exit_state(v, nodes@, mcur, ci as int, idx as int);
                }
            }
            ci = ci + 1;
        }
        if nodes.len() == 0 {
            proof {
                if config_buildable(v) {
                    let i = choose|i: int| 0 <= i < v.len() && (#[trigger] v[i]).1.len() > 0;
                    assert(false);
                }
            }
            let msg: String = String::from_str("A configuration must have at least one module.");
            proof {
                assert(config_empty(v));
                assert(build_failure(v, msg@));
            }
            return Err(Error::new(msg));
        }
        let mut unknown: bool = false;
        let mut err: String = String::from_str("Incomplete configuration:");
        proof {
            assert(err@.subrange(0, "Incomplete configuration:"@.len() as int)
                =~= "Incomplete configuration:"@);
        }
        let mut di: usize = 0;
        while di < dangling.len()
            invariant
                v == conf@,
                di <= dangling@.len(),
                distinct_keys(dangling_view(dangling@)),
                starts_with(err@, "Incomplete configuration:"@),
                forall|nm: Seq<char>| #[trigger]
                    assoc_map(dangling_view(dangling@)).contains_key(Some(nm)) ==> key_cause(
                        v,
                        nm,
                        v.len() as int,
                    ),
                unknown ==> exists|i: int, j: int|
                    0 <= i < v.len() && 0 <= j < cutoff(v[i].1, 0) && (dangling_dest(
                        v,
                        (#[trigger] v[i].1[j]).then_dest,
                    ) || dangling_dest(v, v[i].1[j].else_dest)),
                config_buildable(v) ==> parked_resolvable(
                    assoc_map(dangling_view(dangling@)),
                    v,
                    v.len() as int,
                ),
                config_buildable(v) ==> !unknown,
            decreases dangling@.len() - di,
        {
            let is_some: bool = match &dangling[di].0 {
                Some(_) => true,
                None => false,
            };
            proof {
                assert(dangling_view(dangling@)[di as int] == (
                    opt_str_view(dangling@[di as int].0),
                    bucket_view(dangling@[di as int].1@),
                ));
            }
            if is_some {
                proof {
                    lemma_assoc_at(dangling_view(dangling@), di as int);
                    let nm = dangling_view(dangling@)[di as int].0->0;
                    assert(assoc_map(dangling_view(dangling@)).contains_key(Some(nm)));
                    if config_buildable(v) {
                        let i2 = choose|i2: int|
                            v.len() <= i2 < v.len() && (#[trigger] v[i2]).0 == nm && v[i2].1.len()
                                > 0;
                        assert(false);
                    }
                    assert(key_cause(v, nm, v.len() as int));
                    let (wi, wj) = choose|i: int, j: int|
                        0 <= i < v.len() && 0 <= j < cutoff(v[i].1, 0) && ((#[trigger] v[i].1[j]).then_dest
                            == Some(nm) || v[i].1[j].else_dest == Some(nm));
                    if v[wi].1[wj].then_dest == Some(nm) {
                        assert(dangling_dest(v, v[wi].1[wj].then_dest));
                    } else {
                        assert(dangling_dest(v, v[wi].1[wj].else_dest));
                    }
                }
                unknown = true;
                let ghost err_pre = err@;
                match &dangling[di].0 {
                    Some(c) => {
                        err.append("\n\tReference to unknown chain ");
                        err.append(c.as_str());
                        err.append(" found at:");
                    },
                    None => {},
                }
                proof {
                    assert(err@.subrange(0, "Incomplete configuration:"@.len() as int)
                        =~= err_pre.subrange(0, "Incomplete configuration:"@.len() as int));
                }
                let mut pi: usize = 0;
                while pi < dangling[di].1.len()
                    invariant
                        di < dangling@.len(),
                        pi <= dangling@[di as int].1@.len(),
                        starts_with(err@, "Incomplete configuration:"@),
                    decreases dangling@[di as int].1@.len() - pi,
                {
                    let ghost err_pre2 = err@;
                    err.append("\n\t  ");
                    let (ni, is_then) = dangling[di].1[pi];
                    if ni < nodes.len() {
                        err.append(nodes[ni].name.as_str());
                    }
                    if is_then {
                        err.append(":then");
                    } else {
                        err.append(":else");
                    }
                    proof {
                        assert(err@.subrange(0, "Incomplete configuration:"@.len() as int)
                            =~= err_pre2.subrange(0, "Incomplete configuration:"@.len() as int));
                    }
                    pi = pi + 1;
                }
            }
            di = di + 1;
        }
        if unknown {
            proof {
                assert(build_failure(v, err@));
            }
            return Err(Error::new(err));
        }
        proof {
            assert(!config_empty(v));
        }
        let w = Workflow { nodes };
        proof {
            if config_buildable(v) {
                lemma_final_graph(v, w.nodes@);
                let ns = w.spec_nodes();
                assert(ns.len() == node_base(v, v.len() as int));
                assert forall|i: int, j: int|
                    0 <= i < v.len() && 0 <= j < cutoff(v[i].1, 0) implies {
                    let k = node_base(v, i) + j;
                    &&& 0 <= k < ns.len()
                    &&& spec_module_built((#[trigger] v[i].1[j]).module, v[i].1[j].args, ns[k].module)
                    &&& ns[k].name == spec_node_name(v, i, j)
                    &&& ns[k].then_dest == spec_then_edge(v, i, j)
                    &&& ns[k].else_dest == spec_else_edge(v, i, j)
                } by {
                    let k = node_base(v, i) + j;
                    assert(0 <= k < w.nodes@.len() && spec_module_built(
                        v[i].1[j].module,
                        v[i].1[j].args,
                        w.nodes@[k].module,
                    ) && w.nodes@[k].name@ == spec_node_name(v, i, j) && edge_view(
                        w.nodes@[k].then_dest,
                    ) == spec_then_edge(v, i, j) && edge_view(w.nodes@[k].else_dest)
                        == spec_else_edge(v, i, j));
                    assert(ns[k] == NodeView {
                        name: w.nodes@[k].name@,
                        module: w.nodes@[k].module,
                        then_dest: edge_view(w.nodes@[k].then_dest),
                        else_dest: edge_view(w.nodes@[k].else_dest),
                    });
                }
                assert(compiled_graph(v, ns));
            }
        }
        Ok(w)
    }

    /// Drives one record through the graph: start at the first node, run
    /// its module, follow the success or failure jump, stop at a terminal
    /// jump or on an action error. The record and the stores stay
    /// well-formed; what each node's module does is stated by its own
    /// contract.
    pub fn run<L: LogPort, M: EmailPort, B: NetfilterBackendPort, S: NetfilterStoragePort>(
        &self,
        record: &mut Record,
        engine: &mut Engine<L, M, B, S>,
        now: i64,
    )
        requires
            self.wf(),
            old(record).wf(),
            old(engine).wf(),
        ensures
            final(record).wf(),
            final(engine).wf(),
            run_trace(
                self.spec_nodes(),
                0,
                old(record)@,
                old(engine).counters@,
                old(engine).dnat@,
                final(record)@,
                final(engine).counters@,
                final(engine).dnat@,
                now as int,
            ),
    {
        let ghost ns = self.spec_nodes();
        let ghost rec0 = record@;
        let ghost cs0 = engine.counters@;
        let ghost dn0 = engine.dnat@;
        proof {
            assert forall|k: int|
                0 <= k < ns.len() implies (match (#[trigger] ns[k]).then_dest {
                Some(t) => k < t < ns.len(),
                None => true,
            }) && (match ns[k].else_dest {
                Some(t) => k < t < ns.len(),
                None => true,
            }) by {
                assert(node_ok(self.nodes@[k], k, self.nodes@.len() as int));
            }
        }
        let mut i: usize = 0;
        loop
            invariant
                self.wf(),
                record.wf(),
                engine.wf(),
                i < self.nodes@.len(),
                ns == self.spec_nodes(),
                ns.len() == self.nodes@.len(),
                nodes_forward(ns),
                rec0 == old(record)@,
                cs0 == old(engine).counters@,
                dn0 == old(engine).dnat@,
                forall|k: int|
                    0 <= k < ns.len() ==> (#[trigger] ns[k]).module == self.nodes@[k].module
                        && ns[k].then_dest == (match self.nodes@[k].then_dest {
                        Some(t) => Some(t as int),
                        None => None,
                    }) && ns[k].else_dest == (match self.nodes@[k].else_dest {
                        Some(t) => Some(t as int),
                        None => None,
                    }),
                forall|fr: Map<Seq<char>, ValueView>, fc: Map<CKey, CData>, fd: Seq<
                    DnatMappingView,
                >|
                    #[trigger] run_trace(
                        ns,
                        i as int,
                        record@,
                        engine.counters@,
                        engine.dnat@,
                        fr,
                        fc,
                        fd,
                        now as int,
                    ) ==> run_trace(ns, 0, rec0, cs0, dn0, fr, fc, fd, now as int),
            decreases self.nodes@.len() - i,
        {
            let ghost pre_rec = record@;
            let ghost pre_cs = engine.counters@;
            let ghost pre_dn = engine.dnat@;
            let verdict: Result<bool, Error> = self.nodes[i].module.run(record, engine, now);
            proof {
                assert(node_ok(self.nodes@[i as int], i as int, self.nodes@.len() as int));
                assert(module_outcome(
                    ns[i as int].module,
                    pre_rec,
                    record@,
                    pre_cs,
                    engine.counters@,
                    pre_dn,
                    engine.dnat@,
                    now as int,
                    verdict,
                ));
            }
            let target: Option<usize> = match verdict {
                Ok(b) => {
                    if b {
                        self.nodes[i].then_dest
                    } else {
                        self.nodes[i].else_dest
                    }
                },
                Err(_) => None,
            };
            match target {
                Some(t) => {
                    proof {
                        assert forall|fr: Map<Seq<char>, ValueView>, fc: Map<CKey, CData>, fd: Seq<
                            DnatMappingView,
                        >|
                            #[trigger] run_trace(
                                ns,
                                t as int,
                                record@,
                                engine.counters@,
                                engine.dnat@,
                                fr,
                                fc,
                                fd,
                                now as int,
                            ) implies run_trace(ns, 0, rec0, cs0, dn0, fr, fc, fd, now as int) by {
                            assert(run_trace(
                                ns,
                                i as int,
                                pre_rec,
                                pre_cs,
                                pre_dn,
                                fr,
                                fc,
                                fd,
                                now as int,
                            ));
                        }
                    }
                    i = t;
                },
                None => {
                    proof {
                        assert(run_trace(
                            ns,
                            i as int,
                            pre_rec,
                            pre_cs,
                            pre_dn,
                            record@,
                            engine.counters@,
                            engine.dnat@,
                            now as int,
                        ));
                    }
                    return ;
                },
            }
        }
    }
}

} // verus!
