//! Beam search over orderings of a pattern graph.
//!
//! A partial plan holds a committed prefix of vertices (`vertex_ordering`), one open step whose
//! members may intersect on a join variable, and a stash of trivial checks on that step. Steps
//! close when a pattern cannot join the open one; closing appends the step's patterns and the
//! variables it produces to the ordering.
use vstd::prelude::*;
use crate::cost::{Cost, chain_spec, completion_cost, SCALE, TRIVIAL_COST};
use crate::graph::{Graph, CostMetaData, Direction, PatternVertex, all_available};

verus! {

#[derive(Clone, Copy, Debug, PartialEq, Eq, Structural)]
pub enum VertexId {
    Variable(usize),
    Pattern(usize),
}

impl VertexId {
    pub fn as_variable_id(&self) -> (r: Option<usize>)
        ensures
            match *self {
                VertexId::Variable(v) => r == Some(v),
                _ => r.is_none(),
            },
    {
        match *self {
            VertexId::Variable(v) => Some(v),
            _ => None,
        }
    }

    pub fn as_pattern_id(&self) -> (r: Option<usize>)
        ensures
            match *self {
                VertexId::Pattern(p) => r == Some(p),
                _ => r.is_none(),
            },
    {
        match *self {
            VertexId::Pattern(p) => Some(p),
            _ => None,
        }
    }
}

/// A closed step: the patterns that intersect in it, the variable they intersect on, and the
/// trivial checks stashed on it.
#[derive(Debug)]
pub struct PlannedStep {
    pub members: Vec<usize>,
    pub join_var: Option<usize>,
    pub checks: Vec<usize>,
}

/// With two or more members a step has a join variable, and every member references it.
pub open spec fn step_joins(g: Graph, members: Seq<usize>, join: Option<usize>) -> bool {
    &&& members.len() >= 2 ==> join.is_some()
    &&& join matches Some(v) ==> forall|i: int|
        0 <= i < members.len() ==> #[trigger] g.edge(members[i] as int, v as int)
}

pub open spec fn in_range(s: Seq<usize>, n: nat) -> bool {
    forall|i: int| 0 <= i < s.len() ==> s[i] < n
}

pub open spec fn ids_in_range(g: Graph, ord: Seq<VertexId>) -> bool {
    forall|i: int|
        0 <= i < ord.len() ==> match #[trigger] ord[i] {
            VertexId::Variable(v) => v < g.num_vars(),
            VertexId::Pattern(p) => p < g.num_patterns(),
        }
}

/// `x` is a pattern-vertex with an edge to variable `v`.
pub open spec fn refs(g: Graph, x: VertexId, v: int) -> bool {
    match x {
        VertexId::Pattern(p) => g.edge(p as int, v),
        VertexId::Variable(_) => false,
    }
}

/// Each variable of `ord` is an input or comes after a pattern that references it.
pub open spec fn vars_justified(g: Graph, ord: Seq<VertexId>) -> bool {
    forall|i: int|
        0 <= i < ord.len() ==> match #[trigger] ord[i] {
            VertexId::Variable(v) => g.is_input(v as int) || exists|j: int|
                0 <= j < i && #[trigger] refs(g, ord[j], v as int),
            VertexId::Pattern(_) => true,
        }
}

/// `x` is the vertex of an input variable.
pub open spec fn is_input_vertex(g: Graph, x: VertexId) -> bool {
    match x {
        VertexId::Variable(v) => v < g.num_vars() && g.is_input(v as int),
        VertexId::Pattern(_) => false,
    }
}

pub open spec fn var_of(x: VertexId) -> int {
    match x {
        VertexId::Variable(v) => v as int,
        VertexId::Pattern(_) => -1,
    }
}

/// The first `n` vertices of `ord` are the input variables, in ascending order, and no input
/// variable comes later.
pub open spec fn inputs_lead(g: Graph, ord: Seq<VertexId>, n: nat) -> bool {
    &&& n <= ord.len()
    &&& forall|i: int| 0 <= i < ord.len() ==> (i < n <==> is_input_vertex(g, #[trigger] ord[i]))
    &&& forall|i: int, j: int| 0 <= i < j < n ==> var_of(#[trigger] ord[i]) < var_of(#[trigger] ord[j])
}

/// `v` is an input, or some pattern outside `remaining` references it.
pub open spec fn grounded(g: Graph, remaining: Seq<bool>, v: int) -> bool {
    g.is_input(v) || exists|p: int|
        0 <= p < g.num_patterns() && !remaining[p] && #[trigger] g.edge(p, v)
}

/// The step's members and checks are patterns of `g`.
pub open spec fn step_in_range(g: Graph, st: PlannedStep) -> bool {
    in_range(st.members@, g.num_patterns()) && in_range(st.checks@, g.num_patterns())
}

pub open spec fn in_step(st: PlannedStep, p: usize) -> bool {
    st.members@.contains(p) || st.checks@.contains(p)
}

/// No step repeats a pattern, and no pattern is in two steps.
pub open spec fn steps_disjoint(steps: Seq<PlannedStep>) -> bool {
    &&& forall|s: int| 0 <= s < steps.len() ==> #[trigger] step_distinct(steps[s])
    &&& forall|s1: int, s2: int, p: usize|
        0 <= s1 < steps.len() && 0 <= s2 < steps.len() && #[trigger] in_step(steps[s1], p)
            && #[trigger] in_step(steps[s2], p) ==> s1 == s2
}

/// A step's members and checks hold no pattern twice.
pub open spec fn step_distinct(st: PlannedStep) -> bool {
    &&& st.members@.no_duplicates()
    &&& st.checks@.no_duplicates()
    &&& forall|p: usize| !(st.members@.contains(p) && st.checks@.contains(p))
}

pub open spec fn in_some_step(steps: Seq<PlannedStep>, p: usize) -> bool {
    exists|s: int| 0 <= s < steps.len() && #[trigger] in_step(steps[s], p)
}

/// Fresh copy of a vector of plain values.
fn copy_vec<T: Copy>(v: &Vec<T>) -> (r: Vec<T>)
    ensures
        r@ == v@,
{
    let mut r: Vec<T> = Vec::new();
    let mut i: usize = 0;
    while i < v.len()
        invariant
            i <= v@.len(),
            r@ == v@.take(i as int),
        decreases v@.len() - i,
    {
        r.push(v[i]);
        proof {
            assert(r@ =~= v@.take(i + 1));
        }
        i = i + 1;
    }
    proof {
        assert(v@.take(i as int) =~= v@);
    }
    r
}

fn copy_steps(steps: &Vec<PlannedStep>) -> (r: Vec<PlannedStep>)
    ensures
        r@.len() == steps@.len(),
        forall|s: int|
            0 <= s < r@.len() ==> r@[s].members@ == steps@[s].members@ && r@[s].join_var
                == steps@[s].join_var && r@[s].checks@ == steps@[s].checks@,
{
    let mut r: Vec<PlannedStep> = Vec::new();
    let mut i: usize = 0;
    while i < steps.len()
        invariant
            i <= steps@.len(),
            r@.len() == i,
            forall|s: int|
                0 <= s < i ==> r@[s].members@ == steps@[s].members@ && r@[s].join_var
                    == steps@[s].join_var && r@[s].checks@ == steps@[s].checks@,
        decreases steps@.len() - i,
    {
        let st = &steps[i];
        r.push(
            PlannedStep {
                members: copy_vec(&st.members),
                join_var: st.join_var,
                checks: copy_vec(&st.checks),
            },
        );
        i = i + 1;
    }
    r
}

fn contains_id(s: &Vec<usize>, x: usize) -> (r: bool)
    ensures
        r == s@.contains(x),
{
    let mut i: usize = 0;
    while i < s.len()
        invariant
            i <= s@.len(),
            forall|j: int| 0 <= j < i ==> s@[j] != x,
        decreases s@.len() - i,
    {
        if s[i] == x {
            return true;
        }
        i = i + 1;
    }
    false
}

/// The number of `true` entries of `s`.
pub open spec fn count_true(s: Seq<bool>) -> nat
    decreases s.len(),
{
    if s.len() == 0 {
        0
    } else {
        count_true(s.drop_last()) + if s.last() {
            1nat
        } else {
            0nat
        }
    }
}

proof fn lemma_count_true_clear(s: Seq<bool>, i: int)
    requires
        0 <= i < s.len(),
        s[i],
    ensures
        count_true(s.update(i, false)) + 1 == count_true(s),
    decreases s.len(),
{
    if i == s.len() - 1 {
        assert(s.update(i, false).drop_last() =~= s.drop_last());
    } else {
        lemma_count_true_clear(s.drop_last(), i);
        assert(s.update(i, false).drop_last() =~= s.drop_last().update(i, false));
    }
}

proof fn lemma_count_true_zero(s: Seq<bool>)
    requires
        count_true(s) == 0,
    ensures
        forall|i: int| 0 <= i < s.len() ==> !s[i],
    decreases s.len(),
{
    if s.len() > 0 {
        lemma_count_true_zero(s.drop_last());
        assert forall|i: int| 0 <= i < s.len() implies !s[i] by {
            if i < s.len() - 1 {
                assert(s[i] == s.drop_last()[i]);
            }
        }
    }
}

proof fn lemma_count_true_none(s: Seq<bool>)
    requires
        forall|i: int| 0 <= i < s.len() ==> !s[i],
    ensures
        count_true(s) == 0,
    decreases s.len(),
{
    if s.len() > 0 {
        lemma_count_true_none(s.drop_last());
    }
}

proof fn lemma_count_true_all(s: Seq<bool>)
    requires
        forall|i: int| 0 <= i < s.len() ==> s[i],
    ensures
        count_true(s) == s.len(),
    decreases s.len(),
{
    if s.len() > 0 {
        lemma_count_true_all(s.drop_last());
    }
}

pub struct PartialCostPlan {
    pub vertex_ordering: Vec<VertexId>,
    /// How many input variables lead the ordering.
    pub input_count: usize,
    /// `ordered_vars[v]` when `Variable(v)` is in `vertex_ordering`.
    pub ordered_vars: Vec<bool>,
    pub steps: Vec<PlannedStep>,
    pub cumulative_cost: Cost,
    pub ongoing_step: Vec<usize>,
    pub ongoing_step_stash: Vec<usize>,
    pub ongoing_step_cost: Cost,
    pub ongoing_step_produced_vars: Vec<bool>,
    pub ongoing_step_stash_produced_vars: Vec<bool>,
    pub ongoing_step_join_var: Option<usize>,
    /// Variables produced so far, the ongoing step's included and its stash's excluded.
    pub all_produced_vars: Vec<bool>,
    pub remaining_patterns: Vec<bool>,
    pub remaining_count: usize,
    pub pattern_metadata: Vec<CostMetaData>,
    pub heuristic: Cost,
}

impl PartialCostPlan {
    pub open spec fn ord(&self) -> Seq<VertexId> {
        self.vertex_ordering@
    }

    /// Bound once the plan so far has run: ordered, or produced by the ongoing step or stash.
    pub open spec fn avail(&self, v: int) -> bool {
        self.ordered_vars@[v] || self.ongoing_step_produced_vars@[v]
            || self.ongoing_step_stash_produced_vars@[v]
    }

    pub open spec fn sizes_ok(&self, g: Graph) -> bool {
        &&& self.ordered_vars@.len() == g.num_vars()
        &&& self.ongoing_step_produced_vars@.len() == g.num_vars()
        &&& self.ongoing_step_stash_produced_vars@.len() == g.num_vars()
        &&& self.all_produced_vars@.len() == g.num_vars()
        &&& self.remaining_patterns@.len() == g.num_patterns()
        &&& self.pattern_metadata@.len() == g.num_patterns()
        &&& self.remaining_count == count_true(self.remaining_patterns@)
        &&& in_range(self.ongoing_step@, g.num_patterns())
        &&& in_range(self.ongoing_step_stash@, g.num_patterns())
        &&& self.ongoing_step_join_var matches Some(v) ==> v < g.num_vars()
    }

    /// Every pattern is in exactly one of: remaining, the ongoing step, the stash, the ordering.
    pub open spec fn partitioned(&self, g: Graph) -> bool {
        &&& self.ongoing_step@.no_duplicates()
        &&& self.ongoing_step_stash@.no_duplicates()
        &&& forall|p: int| 0 <= p < g.num_patterns() ==> #[trigger] self.placed_once(p)
    }

    /// Pattern `p` is in exactly one place.
    pub open spec fn placed_once(&self, p: int) -> bool {
        let rem = self.remaining_patterns@[p];
        let on = self.ongoing_step@.contains(p as usize);
        let st = self.ongoing_step_stash@.contains(p as usize);
        let od = self.ord().contains(VertexId::Pattern(p as usize));
        &&& rem || on || st || od
        &&& rem ==> !on && !st && !od
        &&& on ==> !st && !od
        &&& st ==> !od
    }

    pub open spec fn ordering_ok(&self, g: Graph) -> bool {
        &&& inputs_lead(g, self.ord(), self.input_count as nat)
        &&& self.ord().no_duplicates()
        &&& ids_in_range(g, self.ord())
        &&& forall|v: int|
            0 <= v < g.num_vars() ==> (self.ordered_vars@[v] <==> self.ord().contains(
                VertexId::Variable(v as usize),
            ))
        &&& vars_justified(g, self.ord())
    }

    pub open spec fn vars_ok(&self, g: Graph) -> bool {
        &&& forall|p: int, v: int|
            0 <= p < g.num_patterns() && !self.remaining_patterns@[p] && #[trigger] g.edge(p, v)
                ==> self.avail(v) || self.all_produced_vars@[v]
        &&& forall|v: int|
            0 <= v < g.num_vars() && self.all_produced_vars@[v] ==> self.ordered_vars@[v]
                || self.ongoing_step_produced_vars@[v]
        &&& forall|v: int| 0 <= v < g.num_vars() && g.is_input(v) ==> self.ordered_vars@[v]
        &&& forall|v: int| 0 <= v < g.num_vars() && self.ordered_vars@[v] ==> self.all_produced_vars@[v]
        &&& forall|v: int|
            0 <= v < g.num_vars() && self.ongoing_step_produced_vars@[v] ==> self.all_produced_vars@[v]
        &&& forall|v: int|
            0 <= v < g.num_vars() && (self.avail(v) || self.all_produced_vars@[v]) ==> grounded(
                g,
                self.remaining_patterns@,
                v,
            )
        &&& forall|v: int|
            0 <= v < g.num_vars() && self.ongoing_step_produced_vars@[v] ==> exists|i: int|
                0 <= i < self.ongoing_step@.len() && #[trigger] g.edge(
                    self.ongoing_step@[i] as int,
                    v,
                )
        &&& forall|v: int|
            0 <= v < g.num_vars() && self.ongoing_step_stash_produced_vars@[v] ==> exists|i: int|
                0 <= i < self.ongoing_step_stash@.len() && #[trigger] g.edge(
                    self.ongoing_step_stash@[i] as int,
                    v,
                )
    }

    pub open spec fn steps_ok(&self, g: Graph) -> bool {
        &&& step_joins(g, self.ongoing_step@, self.ongoing_step_join_var)
        &&& self.ongoing_step_join_var.is_none() ==> self.ongoing_step@.len() <= 1
        &&& forall|s: int|
            0 <= s < self.steps@.len() ==> step_joins(
                g,
                #[trigger] self.steps@[s].members@,
                self.steps@[s].join_var,
            )
        &&& forall|s: int| 0 <= s < self.steps@.len() ==> #[trigger] step_in_range(g, self.steps@[s])
        &&& forall|p: int| 0 <= p < g.num_patterns() ==> #[trigger] self.step_covers(p)
        &&& steps_disjoint(self.steps@)
    }

    /// Pattern `p` is ordered exactly when a closed step holds it.
    pub open spec fn step_covers(&self, p: int) -> bool {
        self.ord().contains(VertexId::Pattern(p as usize)) <==> in_some_step(
            self.steps@,
            p as usize,
        )
    }

    /// The starting plan: only the inputs are ordered, nothing is ongoing, nothing has cost.
    pub open spec fn inputs_only(&self, g: Graph) -> bool {
        &&& self.cumulative_cost == Cost::noop()
        &&& self.ongoing_step_cost == Cost::noop()
        &&& self.ongoing_step@.len() == 0
        &&& self.ongoing_step_stash@.len() == 0
        &&& forall|v: int| 0 <= v < g.num_vars() ==> !self.ongoing_step_produced_vars@[v]
        &&& forall|i: int| 0 <= i < self.ord().len() ==> self.ord()[i] is Variable
        &&& forall|v: int|
            0 <= v < g.num_vars() ==> (self.ord().contains(VertexId::Variable(v as usize))
                <==> g.is_input(v))
    }

    pub open spec fn inv(&self, g: Graph) -> bool {
        &&& g.wf()
        &&& self.sizes_ok(g)
        &&& self.partitioned(g)
        &&& self.ordering_ok(g)
        &&& self.vars_ok(g)
        &&& self.steps_ok(g)
    }
}

/// `n` copies of `b`.
fn filled(n: usize, b: bool) -> (r: Vec<bool>)
    ensures
        r@.len() == n,
        forall|i: int| 0 <= i < n ==> r@[i] == b,
{
    let mut r: Vec<bool> = Vec::new();
    let mut i: usize = 0;
    while i < n
        invariant
            i <= n,
            r@.len() == i,
            forall|j: int| 0 <= j < i ==> r@[j] == b,
        decreases n - i,
    {
        r.push(b);
        i = i + 1;
    }
    r
}

impl PartialCostPlan {
    /// The plan that has bound the graph's inputs and nothing else; every pattern remains.
    pub fn new(g: &Graph) -> (r: PartialCostPlan)
        requires
            g.wf(),
        ensures
            r.inv(*g),
            r.remaining_count == g.num_patterns(),
            r.steps@.len() == 0,
            r.ongoing_step@.len() == 0,
            r.ongoing_step_stash@.len() == 0,
            r.inputs_only(*g),
            r.input_count == r.ord().len(),
            r.heuristic.cost == crate::cost::INFINITE,
            r.ongoing_step_join_var.is_none(),
            forall|v: int|
                0 <= v < g.num_vars() ==> (r.all_produced_vars@[v] <==> g.is_input(v))
                    && !r.ongoing_step_stash_produced_vars@[v],
            forall|p: int| 0 <= p < g.num_patterns() ==> r.remaining_patterns@[p],
            forall|p: int| 0 <= p < g.num_patterns() ==> r.pattern_metadata@[p] == CostMetaData::NoMetaData,
    {
        let nv = g.variables.len();
        let np = g.patterns.len();
        let inputs = g.input_variables();
        let mut ordering: Vec<VertexId> = Vec::new();
        let mut ordered = filled(nv, false);
        let mut i: usize = 0;
        while i < inputs.len()
            invariant
                g.wf(),
                nv == g.num_vars(),
                i <= inputs@.len(),
                ordered@.len() == nv,
                ordering@.len() == i,
                forall|k: int| 0 <= k < inputs@.len() ==> inputs@[k] < nv && g.is_input(inputs@[k] as int),
                forall|a: int, b: int| 0 <= a < b < inputs@.len() ==> inputs@[a] < inputs@[b],
                forall|k: int| 0 <= k < i ==> ordering@[k] == VertexId::Variable(inputs@[k]),
                forall|v: int|
                    0 <= v < nv ==> (ordered@[v] <==> exists|k: int|
                        0 <= k < i && inputs@[k] == v as usize),
            decreases inputs@.len() - i,
        {
            let v = inputs[i];
            ordering.push(VertexId::Variable(v));
            ordered.set(v, true);
            proof {
                assert forall|w: int| 0 <= w < nv implies (ordered@[w] <==> exists|k: int|
                    0 <= k < i + 1 && inputs@[k] == w as usize) by {
                    if w == v {
                        assert(inputs@[i as int] == w as usize);
                    }
                }
            }
            i = i + 1;
        }
        let all_produced = copy_vec(&ordered);
        let rem = filled(np, true);
        proof {
            lemma_count_true_all(rem@);
        }
        let mut metadata: Vec<CostMetaData> = Vec::new();
        let mut j: usize = 0;
        while j < np
            invariant
                j <= np,
                metadata@.len() == j,
                forall|x: int| 0 <= x < j ==> metadata@[x] == CostMetaData::NoMetaData,
            decreases np - j,
        {
            metadata.push(CostMetaData::NoMetaData);
            j = j + 1;
        }
        let input_count = ordering.len();
        let r = PartialCostPlan {
            vertex_ordering: ordering,
            input_count,
            ordered_vars: ordered,
            steps: Vec::new(),
            cumulative_cost: Cost::new_noop(),
            ongoing_step: Vec::new(),
            ongoing_step_stash: Vec::new(),
            ongoing_step_cost: Cost::new_noop(),
            ongoing_step_produced_vars: filled(nv, false),
            ongoing_step_stash_produced_vars: filled(nv, false),
            ongoing_step_join_var: None,
            all_produced_vars: all_produced,
            remaining_patterns: rem,
            remaining_count: np,
            pattern_metadata: metadata,
            heuristic: Cost::new_infinite(),
        };
        proof {
            assert forall|v: int| 0 <= v < nv implies (r.ordered_vars@[v] <==> r.ord().contains(
                VertexId::Variable(v as usize),
            )) by {
                if r.ordered_vars@[v] {
                    let k = choose|k: int| 0 <= k < i && inputs@[k] == v as usize;
                    assert(r.ord()[k] == VertexId::Variable(v as usize));
                }
                if r.ord().contains(VertexId::Variable(v as usize)) {
                    let k = choose|k: int| 0 <= k < r.ord().len() && r.ord()[k] == VertexId::Variable(
                        v as usize,
                    );
                    assert(inputs@[k] == v as usize);
                }
            }
            assert forall|v: int| 0 <= v < nv && g.is_input(v) implies r.ordered_vars@[v] by {
                assert(inputs@.contains(v as usize));
                let k = choose|k: int| 0 <= k < inputs@.len() && inputs@[k] == v as usize;
            }
            assert(r.ord().no_duplicates()) by {
                assert forall|a: int, b: int| 0 <= a < r.ord().len() && 0 <= b < r.ord().len() && a != b
                    implies r.ord()[a] != r.ord()[b] by {
                    if a < b {
                        assert(inputs@[a] < inputs@[b]);
                    } else {
                        assert(inputs@[b] < inputs@[a]);
                    }
                }
            }
            assert forall|p: int| 0 <= p < np implies #[trigger] r.placed_once(p) by {
                if r.ord().contains(VertexId::Pattern(p as usize)) {
                    let k = choose|k: int| 0 <= k < r.ord().len() && r.ord()[k] == VertexId::Pattern(
                        p as usize,
                    );
                    assert(r.ord()[k] == VertexId::Variable(inputs@[k]));
                }
            }
            assert forall|p: int| 0 <= p < np implies #[trigger] r.step_covers(p) by {
                if r.ord().contains(VertexId::Pattern(p as usize)) {
                    let k = choose|k: int| 0 <= k < r.ord().len() && r.ord()[k] == VertexId::Pattern(
                        p as usize,
                    );
                    assert(r.ord()[k] == VertexId::Variable(inputs@[k]));
                }
            }
            assert forall|v: int| 0 <= v < nv && (r.avail(v) || r.all_produced_vars@[v]) implies grounded(
                *g,
                r.remaining_patterns@,
                v,
            ) by {
                let k = choose|k: int| 0 <= k < i && inputs@[k] == v as usize;
            }
            assert(vars_justified(*g, r.ord()));
            assert(ids_in_range(*g, r.ord()));
            assert forall|v: int|
                0 <= v < nv implies (r.ord().contains(VertexId::Variable(v as usize)) <==> g.is_input(v)) by {
                if g.is_input(v) {
                    assert(inputs@.contains(v as usize));
                    let k = choose|k: int| 0 <= k < inputs@.len() && inputs@[k] == v as usize;
                }
                if r.ord().contains(VertexId::Variable(v as usize)) {
                    let k = choose|k: int| 0 <= k < r.ord().len() && r.ord()[k] == VertexId::Variable(
                        v as usize,
                    );
                }
            }
        }
        r
    }
}

impl PartialCostPlan {
    /// Appends variable `v`, which an earlier pattern of the ordering references or which is an
    /// input.
    fn push_ordered_var(&mut self, Ghost(g): Ghost<Graph>, v: usize)
        requires
            g.wf(),
            old(self).ordering_ok(g),
            old(self).ordered_vars@.len() == g.num_vars(),
            v < g.num_vars(),
            !g.is_input(v as int),
            !old(self).ordered_vars@[v as int],
            g.is_input(v as int) || exists|j: int|
                0 <= j < old(self).ord().len() && #[trigger] refs(g, old(self).ord()[j], v as int),
        ensures
            final(self).ordering_ok(g),
            final(self).ord() == old(self).ord().push(VertexId::Variable(v)),
            final(self).ordered_vars@ == old(self).ordered_vars@.update(v as int, true),
            final(self).ongoing_step@ == old(self).ongoing_step@,
            final(self).ongoing_step_stash@ == old(self).ongoing_step_stash@,
            final(self).ongoing_step_produced_vars@ == old(self).ongoing_step_produced_vars@,
            final(self).ongoing_step_stash_produced_vars@ == old(
                self,
            ).ongoing_step_stash_produced_vars@,
            final(self).all_produced_vars@ == old(self).all_produced_vars@,
            final(self).remaining_patterns@ == old(self).remaining_patterns@,
            final(self).remaining_count == old(self).remaining_count,
            final(self).pattern_metadata@ == old(self).pattern_metadata@,
            final(self).steps@ == old(self).steps@,
            final(self).ongoing_step_join_var == old(self).ongoing_step_join_var,
            final(self).cumulative_cost == old(self).cumulative_cost,
            final(self).ongoing_step_cost == old(self).ongoing_step_cost,
            final(self).heuristic == old(self).heuristic,
            final(self).input_count == old(self).input_count,
    {
        let ghost o = self.ord();
        self.vertex_ordering.push(VertexId::Variable(v));
        self.ordered_vars.set(v, true);
        proof {
            let n = self.ord();
            assert(n == o.push(VertexId::Variable(v)));
            assert(n.len() == o.len() + 1);
            assert forall|a: int, b: int| 0 <= a < n.len() && 0 <= b < n.len() && a != b implies n[a]
                != n[b] by {
                if a < o.len() && b < o.len() {
                    assert(n[a] == o[a] && n[b] == o[b]);
                } else if a == o.len() {
                    assert(o[b] == n[b]);
                    assert(o.contains(n[b]));
                } else {
                    assert(o[a] == n[a]);
                    assert(o.contains(n[a]));
                }
            }
            assert forall|w: int| 0 <= w < g.num_vars() implies (self.ordered_vars@[w]
                <==> n.contains(VertexId::Variable(w as usize))) by {
                if w != v {
                    if n.contains(VertexId::Variable(w as usize)) {
                        let k = choose|k: int| 0 <= k < n.len() && n[k] == VertexId::Variable(
                            w as usize,
                        );
                        assert(n[o.len() as int] == VertexId::Variable(v));
                        assert(k < o.len());
                        assert(o[k] == n[k]);
                    }
                    if o.contains(VertexId::Variable(w as usize)) {
                        let k = choose|k: int| 0 <= k < o.len() && o[k] == VertexId::Variable(
                            w as usize,
                        );
                        assert(n[k] == o[k]);
                    }
                } else {
                    assert(n[o.len() as int] == VertexId::Variable(v));
                }
            }
            assert forall|i: int| 0 <= i < n.len() implies match #[trigger] n[i] {
                VertexId::Variable(x) => g.is_input(x as int) || exists|j: int|
                    0 <= j < i && #[trigger] refs(g, n[j], x as int),
                VertexId::Pattern(_) => true,
            } by {
                if i < o.len() {
                    assert(n[i] == o[i]);
                    match o[i] {
                        VertexId::Variable(x) => {
                            if !g.is_input(x as int) {
                                let j = choose|j: int| 0 <= j < i && #[trigger] refs(g, o[j], x as int);
                                assert(n[j] == o[j]);
                            }
                        },
                        VertexId::Pattern(_) => {},
                    }
                } else {
                    if !g.is_input(v as int) {
                        let j = choose|j: int| 0 <= j < o.len() && #[trigger] refs(g, o[j], v as int);
                        assert(n[j] == o[j]);
                    }
                }
            }
            assert forall|i: int| 0 <= i < n.len() implies match #[trigger] n[i] {
                VertexId::Variable(x) => x < g.num_vars(),
                VertexId::Pattern(p) => p < g.num_patterns(),
            } by {
                if i < o.len() {
                    assert(n[i] == o[i]);
                }
            }
        }
    }

    /// Appends pattern `p`, which the ordering does not hold yet.
    fn push_ordered_pattern(&mut self, Ghost(g): Ghost<Graph>, p: usize)
        requires
            g.wf(),
            old(self).ordering_ok(g),
            old(self).ordered_vars@.len() == g.num_vars(),
            p < g.num_patterns(),
            !old(self).ord().contains(VertexId::Pattern(p)),
        ensures
            final(self).ordering_ok(g),
            final(self).ord() == old(self).ord().push(VertexId::Pattern(p)),
            final(self).ordered_vars@ == old(self).ordered_vars@,
            final(self).ongoing_step@ == old(self).ongoing_step@,
            final(self).ongoing_step_stash@ == old(self).ongoing_step_stash@,
            final(self).ongoing_step_produced_vars@ == old(self).ongoing_step_produced_vars@,
            final(self).ongoing_step_stash_produced_vars@ == old(
                self,
            ).ongoing_step_stash_produced_vars@,
            final(self).all_produced_vars@ == old(self).all_produced_vars@,
            final(self).remaining_patterns@ == old(self).remaining_patterns@,
            final(self).remaining_count == old(self).remaining_count,
            final(self).pattern_metadata@ == old(self).pattern_metadata@,
            final(self).steps@ == old(self).steps@,
            final(self).ongoing_step_join_var == old(self).ongoing_step_join_var,
            final(self).cumulative_cost == old(self).cumulative_cost,
            final(self).ongoing_step_cost == old(self).ongoing_step_cost,
            final(self).heuristic == old(self).heuristic,
            final(self).input_count == old(self).input_count,
    {
        let ghost o = self.ord();
        self.vertex_ordering.push(VertexId::Pattern(p));
        proof {
            let n = self.ord();
            assert(n == o.push(VertexId::Pattern(p)));
            assert(n.len() == o.len() + 1);
            assert forall|a: int, b: int| 0 <= a < n.len() && 0 <= b < n.len() && a != b implies n[a]
                != n[b] by {
                if a < o.len() && b < o.len() {
                    assert(n[a] == o[a] && n[b] == o[b]);
                } else if a == o.len() {
                    assert(o[b] == n[b]);
                    assert(o.contains(n[b]));
                } else {
                    assert(o[a] == n[a]);
                    assert(o.contains(n[a]));
                }
            }
            assert forall|w: int| 0 <= w < g.num_vars() implies (self.ordered_vars@[w]
                <==> n.contains(VertexId::Variable(w as usize))) by {
                if n.contains(VertexId::Variable(w as usize)) {
                    let k = choose|k: int| 0 <= k < n.len() && n[k] == VertexId::Variable(w as usize);
                    assert(k < o.len());
                    assert(o[k] == n[k]);
                }
                if o.contains(VertexId::Variable(w as usize)) {
                    let k = choose|k: int| 0 <= k < o.len() && o[k] == VertexId::Variable(w as usize);
                    assert(n[k] == o[k]);
                }
            }
            assert forall|i: int| 0 <= i < n.len() implies match #[trigger] n[i] {
                VertexId::Variable(x) => g.is_input(x as int) || exists|j: int|
                    0 <= j < i && #[trigger] refs(g, n[j], x as int),
                VertexId::Pattern(_) => true,
            } by {
                if i < o.len() {
                    assert(n[i] == o[i]);
                    match o[i] {
                        VertexId::Variable(x) => {
                            if !g.is_input(x as int) {
                                let j = choose|j: int| 0 <= j < i && #[trigger] refs(g, o[j], x as int);
                                assert(n[j] == o[j]);
                            }
                        },
                        VertexId::Pattern(_) => {},
                    }
                }
            }
            assert forall|i: int| 0 <= i < n.len() implies match #[trigger] n[i] {
                VertexId::Variable(x) => x < g.num_vars(),
                VertexId::Pattern(q) => q < g.num_patterns(),
            } by {
                if i < o.len() {
                    assert(n[i] == o[i]);
                }
            }
        }
    }
}

impl PartialCostPlan {
    /// Closes the ongoing step. Its patterns, the variables it produced, and each stashed check
    /// followed by the variables that check binds first join the ordering; the step is recorded
    /// and its cost added to the cumulative cost.
    #[verifier::rlimit(50)]
    fn close_step(&mut self, g: &Graph)
        requires
            old(self).inv(*g),
        ensures
            final(self).inv(*g),
            final(self).ongoing_step@.len() == 0,
            final(self).ongoing_step_stash@.len() == 0,
            final(self).ongoing_step_join_var.is_none(),
            forall|v: int| 0 <= v < g.num_vars() ==> !final(self).ongoing_step_produced_vars@[v],
            forall|v: int|
                0 <= v < g.num_vars() ==> !final(self).ongoing_step_stash_produced_vars@[v],
            final(self).remaining_patterns@ == old(self).remaining_patterns@,
            final(self).remaining_count == old(self).remaining_count,
            final(self).pattern_metadata@ == old(self).pattern_metadata@,
            final(self).heuristic == old(self).heuristic,
            final(self).ongoing_step_cost == Cost::noop(),
            final(self).cumulative_cost == chain_spec(
                chain_spec(old(self).cumulative_cost, old(self).ongoing_step_cost),
                Cost {
                    cost: crate::cost::sat(old(self).ongoing_step_stash@.len() * TRIVIAL_COST),
                    io_ratio: SCALE,
                },
            ),
            forall|v: int|
                0 <= v < g.num_vars() ==> (final(self).ordered_vars@[v] <==> (old(self).avail(v)
                    || old(self).all_produced_vars@[v])),
            final(self).ord().len() >= old(self).ord().len() + old(self).ongoing_step@.len(),
            final(self).ord().take(old(self).ord().len() as int) == old(self).ord(),
            forall|v: int|
                0 <= v < g.num_vars() ==> (final(self).all_produced_vars@[v] <==> (old(self).avail(v)
                    || old(self).all_produced_vars@[v])),
            forall|k: int|
                0 <= k < old(self).ongoing_step@.len() ==> final(self).ord()[old(self).ord().len() + k]
                    == VertexId::Pattern(old(self).ongoing_step@[k]),
            forall|p: int|
                0 <= p < g.num_patterns() ==> (#[trigger] final(self).ord().contains(VertexId::Pattern(p as usize))
                    <==> (old(self).ord().contains(VertexId::Pattern(p as usize))
                    || old(self).ongoing_step@.contains(p as usize) || old(self).ongoing_step_stash@.contains(
                    p as usize,
                ))),
            old(self).ongoing_step@.len() == 0 && old(self).ongoing_step_stash@.len() == 0 && (
            forall|v: int| 0 <= v < g.num_vars() ==> !old(self).ongoing_step_produced_vars@[v])
                ==> final(self).ord() == old(self).ord() && final(self).steps@.len() == old(
                self,
            ).steps@.len(),
    {
        let ghost o = *self;
        let ghost gg = *g;
        let nv = g.variables.len();
        let n_on = self.ongoing_step.len();
        let mut i: usize = 0;
        while i < n_on
            invariant
                gg == *g,
                o.inv(gg),
                n_on == o.ongoing_step@.len(),
                i <= n_on,
                self.ordering_ok(gg),
                self.ordered_vars@ == o.ordered_vars@,
                self.ongoing_step@ == o.ongoing_step@,
                self.ongoing_step_stash@ == o.ongoing_step_stash@,
                self.ongoing_step_produced_vars@ == o.ongoing_step_produced_vars@,
                self.ongoing_step_stash_produced_vars@ == o.ongoing_step_stash_produced_vars@,
                self.all_produced_vars@ == o.all_produced_vars@,
                self.remaining_patterns@ == o.remaining_patterns@,
                self.remaining_count == o.remaining_count,
                self.pattern_metadata@ == o.pattern_metadata@,
                self.steps@ == o.steps@,
                self.ongoing_step_join_var == o.ongoing_step_join_var,
                self.cumulative_cost == o.cumulative_cost,
                self.ongoing_step_cost == o.ongoing_step_cost,
                self.heuristic == o.heuristic,
                self.ord().len() == o.ord().len() + i,
                forall|k: int| 0 <= k < o.ord().len() ==> self.ord()[k] == o.ord()[k],
                forall|k: int|
                    0 <= k < i ==> self.ord()[o.ord().len() + k] == VertexId::Pattern(
                        o.ongoing_step@[k],
                    ),
            decreases n_on - i,
        {
            let p = self.ongoing_step[i];
            proof {
                assert(o.placed_once(p as int));
                assert(o.ongoing_step@.contains(p));
                if self.ord().contains(VertexId::Pattern(p)) {
                    let k = choose|k: int| 0 <= k < self.ord().len() && self.ord()[k] == VertexId::Pattern(p);
                    if k < o.ord().len() {
                        assert(o.ord()[k] == VertexId::Pattern(p));
                        assert(o.ord().contains(VertexId::Pattern(p)));
                    } else {
                        let kk = k - o.ord().len();
                        assert(o.ongoing_step@[kk] == p);
                        assert(o.ongoing_step@[i as int] == p);
                    }
                }
            }
            self.push_ordered_pattern(Ghost(gg), p);
            i = i + 1;
        }
        let ghost after_patterns = self.ord().len();
        // the variables the step produced, the join variable first
        if let Some(j) = self.ongoing_step_join_var {
            if self.ongoing_step_produced_vars[j] && !self.ordered_vars[j] {
                proof {
                    let k = choose|k: int|
                        0 <= k < o.ongoing_step@.len() && #[trigger] gg.edge(
                            o.ongoing_step@[k] as int,
                            j as int,
                        );
                    assert(self.ord()[o.ord().len() + k] == VertexId::Pattern(o.ongoing_step@[k]));
                    assert(refs(gg, self.ord()[o.ord().len() + k], j as int));
                }
                self.push_ordered_var(Ghost(gg), j);
            }
        }
        let mut v: usize = 0;
        while v < nv
            invariant
                gg == *g,
                o.inv(gg),
                nv == gg.num_vars(),
                v <= nv,
                n_on == o.ongoing_step@.len(),
                self.ordering_ok(gg),
                self.ordered_vars@.len() == nv,
                self.ongoing_step@ == o.ongoing_step@,
                self.ongoing_step_stash@ == o.ongoing_step_stash@,
                self.ongoing_step_produced_vars@ == o.ongoing_step_produced_vars@,
                self.ongoing_step_stash_produced_vars@ == o.ongoing_step_stash_produced_vars@,
                self.all_produced_vars@ == o.all_produced_vars@,
                self.remaining_patterns@ == o.remaining_patterns@,
                self.remaining_count == o.remaining_count,
                self.pattern_metadata@ == o.pattern_metadata@,
                self.steps@ == o.steps@,
                self.ongoing_step_join_var == o.ongoing_step_join_var,
                self.cumulative_cost == o.cumulative_cost,
                self.ongoing_step_cost == o.ongoing_step_cost,
                self.heuristic == o.heuristic,
                self.ord().len() >= o.ord().len() + n_on,
                forall|k: int| 0 <= k < o.ord().len() ==> self.ord()[k] == o.ord()[k],
                forall|k: int|
                    0 <= k < n_on ==> self.ord()[o.ord().len() + k] == VertexId::Pattern(
                        o.ongoing_step@[k],
                    ),
                forall|k: int|
                    o.ord().len() + n_on <= k < self.ord().len() ==> self.ord()[k] is Variable,
                forall|w: int| 0 <= w < nv && o.ordered_vars@[w] ==> self.ordered_vars@[w],
                forall|w: int|
                    0 <= w < nv && self.ordered_vars@[w] ==> o.ordered_vars@[w]
                        || o.ongoing_step_produced_vars@[w],
                forall|w: int|
                    0 <= w < v && o.ongoing_step_produced_vars@[w] ==> self.ordered_vars@[w],
            decreases nv - v,
        {
            if self.ongoing_step_produced_vars[v] && !self.ordered_vars[v] {
                proof {
                    let k = choose|k: int|
                        0 <= k < o.ongoing_step@.len() && #[trigger] gg.edge(
                            o.ongoing_step@[k] as int,
                            v as int,
                        );
                    assert(self.ord()[o.ord().len() + k] == VertexId::Pattern(o.ongoing_step@[k]));
                    assert(refs(gg, self.ord()[o.ord().len() + k], v as int));
                }
                self.push_ordered_var(Ghost(gg), v);
            }
            v = v + 1;
        }
        proof {
            assert(o.ongoing_step_stash@.take(0) =~= Seq::<usize>::empty());
            assert forall|p: int|
                0 <= p < gg.num_patterns() implies (#[trigger] self.ord().contains(
                VertexId::Pattern(p as usize),
            ) <==> (o.ord().contains(VertexId::Pattern(p as usize)) || o.ongoing_step@.contains(
                p as usize,
            ) || o.ongoing_step_stash@.take(0).contains(p as usize))) by {
                if self.ord().contains(VertexId::Pattern(p as usize)) {
                    let k = choose|k: int|
                        0 <= k < self.ord().len() && self.ord()[k] == VertexId::Pattern(p as usize);
                    if k < o.ord().len() {
                        assert(o.ord()[k] == VertexId::Pattern(p as usize));
                    } else if k < o.ord().len() + n_on {
                        let kk = k - o.ord().len();
                        assert(self.ord()[o.ord().len() + kk] == VertexId::Pattern(o.ongoing_step@[kk]));
                        assert(o.ongoing_step@[kk] == p as usize);
                    } else {
                        assert(self.ord()[k] is Variable);
                    }
                }
                if o.ord().contains(VertexId::Pattern(p as usize)) {
                    let k = choose|k: int|
                        0 <= k < o.ord().len() && o.ord()[k] == VertexId::Pattern(p as usize);
                    assert(self.ord()[k] == VertexId::Pattern(p as usize));
                }
                if o.ongoing_step@.contains(p as usize) {
                    let k = choose|k: int|
                        0 <= k < o.ongoing_step@.len() && o.ongoing_step@[k] == p as usize;
                    assert(self.ord()[o.ord().len() + k] == VertexId::Pattern(p as usize));
                }
            }
        }
        // the stash, each check followed by the variables it binds first
        let mut stash_bound = filled(nv, false);
        let n_st = self.ongoing_step_stash.len();
        let mut i: usize = 0;
        while i < n_st
            invariant
                gg == *g,
                o.inv(gg),
                nv == gg.num_vars(),
                n_on == o.ongoing_step@.len(),
                n_st == o.ongoing_step_stash@.len(),
                i <= n_st,
                stash_bound@.len() == nv,
                self.ordering_ok(gg),
                self.ordered_vars@.len() == nv,
                self.ongoing_step@ == o.ongoing_step@,
                self.ongoing_step_stash@ == o.ongoing_step_stash@,
                self.ongoing_step_produced_vars@ == o.ongoing_step_produced_vars@,
                self.ongoing_step_stash_produced_vars@ == o.ongoing_step_stash_produced_vars@,
                self.all_produced_vars@ == o.all_produced_vars@,
                self.remaining_patterns@ == o.remaining_patterns@,
                self.remaining_count == o.remaining_count,
                self.pattern_metadata@ == o.pattern_metadata@,
                self.steps@ == o.steps@,
                self.ongoing_step_join_var == o.ongoing_step_join_var,
                self.cumulative_cost == o.cumulative_cost,
                self.ongoing_step_cost == o.ongoing_step_cost,
                self.heuristic == o.heuristic,
                self.ord().len() >= o.ord().len() + n_on,
                forall|k: int| 0 <= k < o.ord().len() ==> self.ord()[k] == o.ord()[k],
                forall|k: int|
                    0 <= k < n_on ==> self.ord()[o.ord().len() + k] == VertexId::Pattern(
                        o.ongoing_step@[k],
                    ),
                forall|p: int|
                    0 <= p < gg.num_patterns() ==> (#[trigger] self.ord().contains(VertexId::Pattern(p as usize))
                        <==> (o.ord().contains(VertexId::Pattern(p as usize))
                        || o.ongoing_step@.contains(p as usize)
                        || o.ongoing_step_stash@.take(i as int).contains(p as usize))),
                forall|w: int| 0 <= w < nv && o.ordered_vars@[w] ==> self.ordered_vars@[w],
                forall|w: int|
                    0 <= w < nv && o.ongoing_step_produced_vars@[w] ==> self.ordered_vars@[w],
                forall|w: int|
                    0 <= w < nv && self.ordered_vars@[w] ==> o.avail(w),
                forall|w: int| 0 <= w < nv && stash_bound@[w] ==> self.ordered_vars@[w],
                forall|w: int|
                    0 <= w < nv && self.ordered_vars@[w] ==> o.ordered_vars@[w] || o.ongoing_step_produced_vars@[w]
                        || stash_bound@[w],
                forall|k: int, w: int|
                    0 <= k < i && #[trigger] gg.edge(o.ongoing_step_stash@[k] as int, w) ==> self.ordered_vars@[w]
                        || o.all_produced_vars@[w],
            decreases n_st - i,
        {
            let q = self.ongoing_step_stash[i];
            proof {
                assert(o.placed_once(q as int));
                assert(o.ongoing_step_stash@.contains(q));
                if o.ongoing_step_stash@.take(i as int).contains(q) {
                    let k = choose|k: int|
                        0 <= k < i && o.ongoing_step_stash@.take(i as int)[k] == q;
                    assert(o.ongoing_step_stash@[k] == q);
                }
            }
            let ghost prev_ord = self.ord();
            self.push_ordered_pattern(Ghost(gg), q);
            let ghost qpos = self.ord().len() - 1;
            proof {
                assert(o.ongoing_step_stash@.take(i + 1) =~= o.ongoing_step_stash@.take(i as int).push(q));
                assert forall|p: int|
                    0 <= p < gg.num_patterns() implies (#[trigger] self.ord().contains(
                    VertexId::Pattern(p as usize),
                ) <==> (o.ord().contains(VertexId::Pattern(p as usize))
                    || o.ongoing_step@.contains(p as usize)
                    || o.ongoing_step_stash@.take(i + 1).contains(p as usize))) by {
                    if self.ord().contains(VertexId::Pattern(p as usize)) {
                        let m = choose|m: int|
                            0 <= m < self.ord().len() && self.ord()[m] == VertexId::Pattern(p as usize);
                        if m < prev_ord.len() {
                            assert(prev_ord[m] == self.ord()[m]);
                            assert(prev_ord.contains(VertexId::Pattern(p as usize)));
                        } else {
                            assert(o.ongoing_step_stash@.take(i + 1)[i as int] == q);
                        }
                    }
                    if prev_ord.contains(VertexId::Pattern(p as usize)) {
                        let m = choose|m: int|
                            0 <= m < prev_ord.len() && prev_ord[m] == VertexId::Pattern(p as usize);
                        assert(self.ord()[m] == prev_ord[m]);
                    }
                    if o.ongoing_step_stash@.take(i + 1).contains(p as usize) {
                        let m = choose|m: int|
                            0 <= m < i + 1 && #[trigger] o.ongoing_step_stash@.take(i + 1)[m] == p as usize;
                        if m < i {
                            assert(o.ongoing_step_stash@.take(i as int)[m] == p as usize);
                            assert(o.ongoing_step_stash@.take(i as int).contains(p as usize));
                        } else {
                            assert(self.ord()[qpos] == VertexId::Pattern(p as usize));
                        }
                    }
                }
            }
            let pv = &g.patterns[q];
            let mut k: usize = 0;
            while k < pv.variables.len()
                invariant
                    gg == *g,
                    o.inv(gg),
                    nv == gg.num_vars(),
                    n_on == o.ongoing_step@.len(),
                    n_st == o.ongoing_step_stash@.len(),
                    i < n_st,
                    q == o.ongoing_step_stash@[i as int],
                    *pv == gg.patterns@[q as int],
                    q < gg.num_patterns(),
                    k <= pv.variables@.len(),
                    0 <= qpos < self.ord().len(),
                    self.ord()[qpos] == VertexId::Pattern(q),
                    stash_bound@.len() == nv,
                    self.ordering_ok(gg),
                    self.ordered_vars@.len() == nv,
                    self.ongoing_step@ == o.ongoing_step@,
                    self.ongoing_step_stash@ == o.ongoing_step_stash@,
                    self.ongoing_step_produced_vars@ == o.ongoing_step_produced_vars@,
                    self.ongoing_step_stash_produced_vars@ == o.ongoing_step_stash_produced_vars@,
                    self.all_produced_vars@ == o.all_produced_vars@,
                    self.remaining_patterns@ == o.remaining_patterns@,
                    self.remaining_count == o.remaining_count,
                    self.pattern_metadata@ == o.pattern_metadata@,
                    self.steps@ == o.steps@,
                    self.ongoing_step_join_var == o.ongoing_step_join_var,
                    self.cumulative_cost == o.cumulative_cost,
                    self.ongoing_step_cost == o.ongoing_step_cost,
                    self.heuristic == o.heuristic,
                    self.ord().len() >= o.ord().len() + n_on,
                    forall|m: int| 0 <= m < o.ord().len() ==> self.ord()[m] == o.ord()[m],
                    forall|m: int|
                        0 <= m < n_on ==> self.ord()[o.ord().len() + m] == VertexId::Pattern(
                            o.ongoing_step@[m],
                        ),
                    forall|p: int|
                        0 <= p < gg.num_patterns() ==> (#[trigger] self.ord().contains(
                            VertexId::Pattern(p as usize),
                        ) <==> (o.ord().contains(VertexId::Pattern(p as usize))
                            || o.ongoing_step@.contains(p as usize)
                            || o.ongoing_step_stash@.take(i + 1).contains(p as usize))),
                    forall|w: int| 0 <= w < nv && o.ordered_vars@[w] ==> self.ordered_vars@[w],
                    forall|w: int|
                        0 <= w < nv && o.ongoing_step_produced_vars@[w] ==> self.ordered_vars@[w],
                    forall|w: int| 0 <= w < nv && self.ordered_vars@[w] ==> o.avail(w),
                    forall|w: int| 0 <= w < nv && stash_bound@[w] ==> self.ordered_vars@[w],
                forall|w: int|
                    0 <= w < nv && self.ordered_vars@[w] ==> o.ordered_vars@[w] || o.ongoing_step_produced_vars@[w]
                        || stash_bound@[w],
                    forall|m: int, w: int|
                        0 <= m < i && #[trigger] gg.edge(o.ongoing_step_stash@[m] as int, w)
                            ==> self.ordered_vars@[w] || o.all_produced_vars@[w],
                    forall|m: int|
                        0 <= m < k ==> self.ordered_vars@[pv.variables@[m] as int]
                            || o.all_produced_vars@[pv.variables@[m] as int],
                decreases pv.variables@.len() - k,
            {
                let w = pv.variables[k];
                if !self.all_produced_vars[w] && !self.ordered_vars[w] {
                    proof {
                        assert(pv.variables@[k as int] == w);
                        assert(gg.edge(q as int, w as int));
                        assert(refs(gg, self.ord()[qpos], w as int));
                        assert(o.placed_once(q as int));
                        assert(o.ongoing_step_stash@.contains(q));
                        assert(!o.remaining_patterns@[q as int]);
                    }
                    let ghost before = self.ord();
                    self.push_ordered_var(Ghost(gg), w);
                    proof {
                        assert forall|p: int|
                            0 <= p < gg.num_patterns() implies (#[trigger] self.ord().contains(
                            VertexId::Pattern(p as usize),
                        ) <==> before.contains(VertexId::Pattern(p as usize))) by {
                            if self.ord().contains(VertexId::Pattern(p as usize)) {
                                let m = choose|m: int|
                                    0 <= m < self.ord().len() && self.ord()[m] == VertexId::Pattern(p as usize);
                                assert(m < before.len());
                                assert(before[m] == self.ord()[m]);
                            }
                            if before.contains(VertexId::Pattern(p as usize)) {
                                let m = choose|m: int|
                                    0 <= m < before.len() && before[m] == VertexId::Pattern(p as usize);
                                assert(self.ord()[m] == before[m]);
                            }
                        }
                    }
                    stash_bound.set(w, true);
                }
                k = k + 1;
            }
            proof {
                assert forall|m: int, w: int|
                    0 <= m < i + 1 && #[trigger] gg.edge(o.ongoing_step_stash@[m] as int, w)
                        implies self.ordered_vars@[w] || o.all_produced_vars@[w] by {
                    if m == i {
                        assert(gg.patterns@[q as int].variables@.contains(w as usize));
                        let t = choose|t: int| 0 <= t < pv.variables@.len() && pv.variables@[t] == w as usize;
                        assert(self.ordered_vars@[pv.variables@[t] as int]
                            || o.all_produced_vars@[pv.variables@[t] as int]);
                    }
                }
                assert forall|p: int|
                    0 <= p < gg.num_patterns() implies (#[trigger] self.ord().contains(
                    VertexId::Pattern(p as usize),
                ) <==> (o.ord().contains(VertexId::Pattern(p as usize))
                    || o.ongoing_step@.contains(p as usize)
                    || o.ongoing_step_stash@.take(i + 1).contains(p as usize))) by {
                }
            }
            i = i + 1;
        }
        proof {
            assert(o.ongoing_step_stash@.take(n_st as int) =~= o.ongoing_step_stash@);
        }
        let ghost steps_before = self.steps@;
        if n_on > 0 || n_st > 0 {
            let step = PlannedStep {
                members: copy_vec(&self.ongoing_step),
                join_var: self.ongoing_step_join_var,
                checks: copy_vec(&self.ongoing_step_stash),
            };
            self.steps.push(step);
        }
        let stash_total: u128 = (n_st as u128) * (TRIVIAL_COST as u128);
        let stash_cost = Cost {
            cost: if stash_total > u64::MAX as u128 {
                u64::MAX
            } else {
                stash_total as u64
            },
            io_ratio: SCALE,
        };
        self.cumulative_cost = self.cumulative_cost.chain(&self.ongoing_step_cost).chain(&stash_cost);
        let mut produced = copy_vec(&self.all_produced_vars);
        let mut w: usize = 0;
        while w < nv
            invariant
                o.inv(gg),
                nv == gg.num_vars(),
                w <= nv,
                stash_bound@.len() == nv,
                produced@.len() == nv,
                forall|x: int|
                    0 <= x < nv ==> (produced@[x] <==> (o.all_produced_vars@[x] || (x < w
                        && stash_bound@[x]))),
            decreases nv - w,
        {
            if stash_bound[w] {
                produced.set(w, true);
            }
            w = w + 1;
        }
        self.all_produced_vars = produced;
        self.ongoing_step = Vec::new();
        self.ongoing_step_stash = Vec::new();
        self.ongoing_step_produced_vars = filled(nv, false);
        self.ongoing_step_stash_produced_vars = filled(nv, false);
        self.ongoing_step_join_var = None;
        self.ongoing_step_cost = Cost::new_noop();
        proof {
            // every variable bound before closing is now ordered
            assert forall|x: int| 0 <= x < nv implies (self.ordered_vars@[x] <==> (o.avail(x)
                || o.all_produced_vars@[x])) by {
                if o.ongoing_step_stash_produced_vars@[x] {
                    let k = choose|k: int|
                        0 <= k < o.ongoing_step_stash@.len() && #[trigger] gg.edge(
                            o.ongoing_step_stash@[k] as int,
                            x,
                        );
                }
            }
            assert forall|p: int| 0 <= p < gg.num_patterns() implies #[trigger] self.placed_once(p) by {
                assert(o.placed_once(p));
                assert(self.ord().contains(VertexId::Pattern(p as usize)) <==> (o.ord().contains(
                    VertexId::Pattern(p as usize),
                ) || o.ongoing_step@.contains(p as usize) || o.ongoing_step_stash@.contains(
                    p as usize,
                )));
            }
            assert forall|pp: int, x: int|
                0 <= pp < gg.num_patterns() && !self.remaining_patterns@[pp] && #[trigger] gg.edge(
                    pp,
                    x,
                ) implies self.avail(x) || self.all_produced_vars@[x] by {
                assert(o.avail(x) || o.all_produced_vars@[x]);
            }
            assert forall|x: int|
                0 <= x < nv && (self.avail(x) || self.all_produced_vars@[x]) implies grounded(
                gg,
                self.remaining_patterns@,
                x,
            ) by {
                assert(o.avail(x) || o.all_produced_vars@[x]);
                lemma_bound_is_grounded(o, gg, x);
                assert(self.remaining_patterns@ == o.remaining_patterns@);
            }
            assert forall|s: int| 0 <= s < self.steps@.len() implies step_joins(
                gg,
                #[trigger] self.steps@[s].members@,
                self.steps@[s].join_var,
            ) by {
                if s < steps_before.len() {
                    assert(self.steps@[s] == o.steps@[s]);
                }
            }
            assert(steps_disjoint(self.steps@)) by {
                let ns = self.steps@;
                let ol = steps_before.len();
                assert(steps_before == o.steps@);
                assert forall|st: int| 0 <= st < ns.len() implies #[trigger] step_distinct(ns[st]) by {
                    if st < ol {
                        assert(ns[st] == o.steps@[st]);
                    } else {
                        assert forall|q: usize| !(ns[st].members@.contains(q) && ns[st].checks@.contains(q)) by {
                            if ns[st].members@.contains(q) && ns[st].checks@.contains(q) {
                                let k = choose|k: int| 0 <= k < o.ongoing_step@.len() && o.ongoing_step@[k] == q;
                                assert(q < gg.num_patterns());
                                assert(o.placed_once(q as int));
                            }
                        }
                    }
                }
                assert forall|s1: int, s2: int, q: usize|
                    0 <= s1 < ns.len() && 0 <= s2 < ns.len() && #[trigger] in_step(ns[s1], q)
                        && #[trigger] in_step(ns[s2], q) implies s1 == s2 by {
                    if s1 < ol && s2 < ol {
                        assert(ns[s1] == o.steps@[s1]);
                        assert(ns[s2] == o.steps@[s2]);
                    } else if s1 != s2 {
                        let old_s = if s1 < ol { s1 } else { s2 };
                        assert(ns[old_s] == o.steps@[old_s]);
                        assert(in_step(o.steps@[old_s], q));
                        assert(step_in_range(gg, o.steps@[old_s]));
                        if o.steps@[old_s].members@.contains(q) {
                            let k = choose|k: int| 0 <= k < o.steps@[old_s].members@.len() && o.steps@[old_s].members@[k] == q;
                        } else {
                            let k = choose|k: int| 0 <= k < o.steps@[old_s].checks@.len() && o.steps@[old_s].checks@[k] == q;
                        }
                        assert(q < gg.num_patterns());
                        assert(in_some_step(o.steps@, q));
                        assert(o.step_covers(q as int));
                        assert(o.placed_once(q as int));
                    }
                }
            }
            assert forall|p: int| 0 <= p < gg.num_patterns() implies #[trigger] self.step_covers(p) by {
                assert(o.step_covers(p));
                let pu = p as usize;
                if in_some_step(o.steps@, pu) {
                    let s = choose|s: int| 0 <= s < o.steps@.len() && #[trigger] in_step(o.steps@[s], pu);
                    assert(self.steps@[s] == o.steps@[s]);
                }
                if o.ongoing_step@.contains(pu) || o.ongoing_step_stash@.contains(pu) {
                    let s = self.steps@.len() - 1;
                    assert(in_step(self.steps@[s], pu));
                }
                if in_some_step(self.steps@, pu) {
                    let s = choose|s: int| 0 <= s < self.steps@.len() && #[trigger] in_step(self.steps@[s], pu);
                    if s < steps_before.len() {
                        assert(self.steps@[s] == o.steps@[s]);
                    }
                }
            }
            assert(self.ord().take(o.ord().len() as int) =~= o.ord());
            if o.ongoing_step@.len() == 0 && o.ongoing_step_stash@.len() == 0 && (forall|x: int|
                0 <= x < nv ==> !o.ongoing_step_produced_vars@[x]) {
                assert(self.ord() =~= o.ord()) by {
                    if self.ord().len() > o.ord().len() {
                        let x = self.ord()[o.ord().len() as int];
                        match x {
                            VertexId::Variable(xv) => {
                                assert(self.ordered_vars@[xv as int]);
                                assert(self.ord().contains(VertexId::Variable(xv)));
                                assert(o.avail(xv as int));
                                assert(o.ord().contains(VertexId::Variable(xv)));
                                let m = choose|m: int| 0 <= m < o.ord().len() && o.ord()[m] == VertexId::Variable(xv);
                                assert(self.ord()[m] == x);
                            },
                            VertexId::Pattern(xp) => {
                                assert(xp < gg.num_patterns());
                                let pi = xp as int;
                                assert(self.ord().contains(VertexId::Pattern(pi as usize)));
                                assert(o.ord().contains(VertexId::Pattern(xp)));
                                let m = choose|m: int| 0 <= m < o.ord().len() && o.ord()[m] == VertexId::Pattern(xp);
                                assert(self.ord()[m] == x);
                            },
                        }
                    }
                }
            }
        }
    }
}

impl PartialCostPlan {
    /// Stashes the trivial check `p` on the ongoing step; its variables count as bound.
    #[verifier::rlimit(100)]
    fn add_to_stash(&mut self, g: &Graph, p: usize)
        requires
            old(self).inv(*g),
            p < g.num_patterns(),
            old(self).remaining_patterns@[p as int],
        ensures
            final(self).inv(*g),
            final(self).remaining_patterns@ == old(self).remaining_patterns@.update(p as int, false),
            final(self).remaining_count + 1 == old(self).remaining_count,
            final(self).ongoing_step_stash@ == old(self).ongoing_step_stash@.push(p),
            final(self).ongoing_step@ == old(self).ongoing_step@,
            final(self).ongoing_step_join_var == old(self).ongoing_step_join_var,
            final(self).ord() == old(self).ord(),
            final(self).cumulative_cost == old(self).cumulative_cost,
            final(self).ongoing_step_cost == old(self).ongoing_step_cost,
            final(self).heuristic == old(self).heuristic,
            final(self).pattern_metadata@ == old(self).pattern_metadata@.update(
                p as int,
                CostMetaData::NoMetaData,
            ),
            forall|v: int|
                0 <= v < g.num_vars() ==> (final(self).ongoing_step_stash_produced_vars@[v] <==> (
                old(self).ongoing_step_stash_produced_vars@[v] || g.pattern(p as int).references(v as usize))),
            final(self).ongoing_step_produced_vars@ == old(self).ongoing_step_produced_vars@,
    {
        let ghost o = *self;
        let ghost gg = *g;
        proof {
            lemma_count_true_clear(self.remaining_patterns@, p as int);
            assert(o.placed_once(p as int));
        }
        self.ongoing_step_stash.push(p);
        self.remaining_patterns.set(p, false);
        self.remaining_count = self.remaining_count - 1;
        self.pattern_metadata.set(p, CostMetaData::NoMetaData);
        let pv = &g.patterns[p];
        let mut sp = copy_vec(&self.ongoing_step_stash_produced_vars);
        let mut k: usize = 0;
        while k < pv.variables.len()
            invariant
                gg == *g,
                o.inv(gg),
                p < gg.num_patterns(),
                *pv == gg.patterns@[p as int],
                k <= pv.variables@.len(),
                sp@.len() == gg.num_vars(),
                forall|x: int|
                    0 <= x < gg.num_vars() ==> (#[trigger] sp@[x] <==> (
                    o.ongoing_step_stash_produced_vars@[x] || exists|m: int|
                        0 <= m < k && pv.variables@[m] == x as usize)),
            decreases pv.variables@.len() - k,
        {
            let w = pv.variables[k];
            proof {
                assert(w < gg.num_vars());
            }
            sp.set(w, true);
            proof {
                assert forall|x: int|
                    0 <= x < gg.num_vars() implies (#[trigger] sp@[x] <==> (
                    o.ongoing_step_stash_produced_vars@[x] || exists|m: int|
                        0 <= m < k + 1 && pv.variables@[m] == x as usize)) by {
                    if x == w as int {
                        assert(pv.variables@[k as int] == x as usize);
                    } else {
                        if exists|m: int| 0 <= m < k + 1 && pv.variables@[m] == x as usize {
                            let m = choose|m: int| 0 <= m < k + 1 && pv.variables@[m] == x as usize;
                            assert(m != k);
                        }
                    }
                }
            }
            k = k + 1;
        }
        self.ongoing_step_stash_produced_vars = sp;
        proof {
            assert(self.ord() == o.ord());
            assert(self.ordered_vars@ == o.ordered_vars@);
            assert(self.input_count == o.input_count);
            assert(self.ordering_ok(gg));
            assert(self.steps@ == o.steps@);
            assert(steps_disjoint(self.steps@));
            let n = self.ongoing_step_stash@;
            assert forall|q: int| 0 <= q < gg.num_patterns() implies #[trigger] self.placed_once(q) by {
                assert(o.placed_once(q));
                if q != p as int {
                    assert(n.contains(q as usize) ==> o.ongoing_step_stash@.contains(q as usize)) by {
                        if n.contains(q as usize) {
                            let m = choose|m: int| 0 <= m < n.len() && n[m] == q as usize;
                            assert(o.ongoing_step_stash@[m] == q as usize);
                        }
                    }
                    if o.ongoing_step_stash@.contains(q as usize) {
                        let m = choose|m: int| 0 <= m < o.ongoing_step_stash@.len() && o.ongoing_step_stash@[m] == q as usize;
                        assert(n[m] == q as usize);
                    }
                } else {
                    assert(n[n.len() - 1] == p);
                }
            }
            assert(n.no_duplicates()) by {
                assert forall|a: int, b: int| 0 <= a < n.len() && 0 <= b < n.len() && a != b implies n[a] != n[b] by {
                    if a < n.len() - 1 && b < n.len() - 1 {
                        assert(n[a] == o.ongoing_step_stash@[a]);
                        assert(n[b] == o.ongoing_step_stash@[b]);
                    } else if a == n.len() - 1 {
                        assert(o.ongoing_step_stash@.contains(n[b]));
                    } else {
                        assert(o.ongoing_step_stash@.contains(n[a]));
                    }
                }
            }
            assert(in_range(n, gg.num_patterns()));
            assert forall|q: int, x: int|
                0 <= q < gg.num_patterns() && !self.remaining_patterns@[q] && #[trigger] gg.edge(q, x)
                    implies self.avail(x) || self.all_produced_vars@[x] by {
                if q == p as int {
                    let m = choose|m: int| 0 <= m < pv.variables@.len() && pv.variables@[m] == x as usize;
                }
            }
            assert forall|x: int|
                0 <= x < gg.num_vars() && (self.avail(x) || self.all_produced_vars@[x]) implies grounded(
                gg,
                self.remaining_patterns@,
                x,
            ) by {
                if o.avail(x) || o.all_produced_vars@[x] {
                    lemma_bound_is_grounded(o, gg, x);
                    if !gg.is_input(x) {
                        let q = choose|q: int|
                            0 <= q < gg.num_patterns() && !o.remaining_patterns@[q] && #[trigger] gg.edge(q, x);
                        assert(!self.remaining_patterns@[q]);
                    }
                } else {
                    let m = choose|m: int| 0 <= m < pv.variables@.len() && pv.variables@[m] == x as usize;
                    assert(gg.edge(p as int, x));
                }
            }
            assert forall|x: int|
                0 <= x < gg.num_vars() && self.ongoing_step_stash_produced_vars@[x] implies exists|i: int|
                    0 <= i < n.len() && #[trigger] gg.edge(n[i] as int, x) by {
                if o.ongoing_step_stash_produced_vars@[x] {
                    let i = choose|i: int|
                        0 <= i < o.ongoing_step_stash@.len() && #[trigger] gg.edge(o.ongoing_step_stash@[i] as int, x);
                    assert(n[i] == o.ongoing_step_stash@[i]);
                } else {
                    let m = choose|m: int| 0 <= m < pv.variables@.len() && pv.variables@[m] == x as usize;
                    assert(gg.edge(n[n.len() - 1] as int, x));
                }
            }
            assert forall|q: int| 0 <= q < gg.num_patterns() implies #[trigger] self.step_covers(q) by {
                assert(o.step_covers(q));
            }
        }
    }
}

impl PartialCostPlan {
    /// Makes `p` a member of the ongoing step that intersects on `join`; the variables of `p` not
    /// produced before become produced by this step.
    fn take_into_step(
        &mut self,
        g: &Graph,
        p: usize,
        meta: CostMetaData,
        join: Option<usize>,
        step_cost: Cost,
        heuristic: Cost,
    )
        requires
            old(self).inv(*g),
            p < g.num_patterns(),
            old(self).remaining_patterns@[p as int],
            join matches Some(v) ==> v < g.num_vars() && g.edge(p as int, v as int) && forall|i: int|
                0 <= i < old(self).ongoing_step@.len() ==> #[trigger] g.edge(
                    old(self).ongoing_step@[i] as int,
                    v as int,
                ),
            join.is_none() ==> old(self).ongoing_step@.len() == 0,
        ensures
            final(self).inv(*g),
            final(self).remaining_patterns@ == old(self).remaining_patterns@.update(p as int, false),
            final(self).remaining_count + 1 == old(self).remaining_count,
            final(self).ongoing_step@ == old(self).ongoing_step@.push(p),
            final(self).ongoing_step_stash@ == old(self).ongoing_step_stash@,
            final(self).ongoing_step_join_var == join,
            final(self).ongoing_step_cost == step_cost,
            final(self).cumulative_cost == old(self).cumulative_cost,
            final(self).heuristic == heuristic,
            final(self).ord() == old(self).ord(),
            final(self).pattern_metadata@ == old(self).pattern_metadata@.update(p as int, meta),
            forall|v: int|
                0 <= v < g.num_vars() ==> (final(self).ongoing_step_produced_vars@[v] <==> (
                old(self).ongoing_step_produced_vars@[v] || (!old(self).all_produced_vars@[v]
                    && g.pattern(p as int).references(v as usize)))),
            final(self).ongoing_step_stash_produced_vars@ == old(self).ongoing_step_stash_produced_vars@,
    {
        let ghost o = *self;
        let ghost gg = *g;
        proof {
            lemma_count_true_clear(self.remaining_patterns@, p as int);
            assert(o.placed_once(p as int));
        }
        self.ongoing_step.push(p);
        self.remaining_patterns.set(p, false);
        self.remaining_count = self.remaining_count - 1;
        self.pattern_metadata.set(p, meta);
        let pv = &g.patterns[p];
        let mut op = copy_vec(&self.ongoing_step_produced_vars);
        let mut ap = copy_vec(&self.all_produced_vars);
        let mut k: usize = 0;
        while k < pv.variables.len()
            invariant
                gg == *g,
                o.inv(gg),
                p < gg.num_patterns(),
                *pv == gg.patterns@[p as int],
                k <= pv.variables@.len(),
                op@.len() == gg.num_vars(),
                ap@.len() == gg.num_vars(),
                self.all_produced_vars@ == o.all_produced_vars@,
                forall|x: int|
                    0 <= x < gg.num_vars() ==> (#[trigger] op@[x] <==> (
                    o.ongoing_step_produced_vars@[x] || (!o.all_produced_vars@[x] && exists|m: int|
                        0 <= m < k && pv.variables@[m] == x as usize))),
                forall|x: int|
                    0 <= x < gg.num_vars() ==> (#[trigger] ap@[x] <==> (
                    o.all_produced_vars@[x] || exists|m: int|
                        0 <= m < k && pv.variables@[m] == x as usize)),
            decreases pv.variables@.len() - k,
        {
            let w = pv.variables[k];
            proof {
                assert(w < gg.num_vars());
            }
            if !self.all_produced_vars[w] {
                op.set(w, true);
            }
            ap.set(w, true);
            proof {
                assert forall|x: int|
                    0 <= x < gg.num_vars() implies (#[trigger] op@[x] <==> (
                    o.ongoing_step_produced_vars@[x] || (!o.all_produced_vars@[x] && exists|m: int|
                        0 <= m < k + 1 && pv.variables@[m] == x as usize))) && (#[trigger] ap@[x] <==> (
                    o.all_produced_vars@[x] || exists|m: int|
                        0 <= m < k + 1 && pv.variables@[m] == x as usize)) by {
                    if x == w as int {
                        assert(pv.variables@[k as int] == x as usize);
                    } else {
                        if exists|m: int| 0 <= m < k + 1 && pv.variables@[m] == x as usize {
                            let m = choose|m: int| 0 <= m < k + 1 && pv.variables@[m] == x as usize;
                            assert(m != k);
                        }
                    }
                }
            }
            k = k + 1;
        }
        self.ongoing_step_produced_vars = op;
        self.all_produced_vars = ap;
        self.ongoing_step_join_var = join;
        self.ongoing_step_cost = step_cost;
        self.heuristic = heuristic;
        proof {
            assert(self.ord() == o.ord());
            assert(self.ordered_vars@ == o.ordered_vars@);
            assert(self.input_count == o.input_count);
            assert(self.ordering_ok(gg));
            let n = self.ongoing_step@;
            assert(n == o.ongoing_step@.push(p));
            assert forall|q: int| 0 <= q < gg.num_patterns() implies #[trigger] self.placed_once(q) by {
                assert(o.placed_once(q));
                if q != p as int {
                    if n.contains(q as usize) {
                        let m = choose|m: int| 0 <= m < n.len() && n[m] == q as usize;
                        assert(m < n.len() - 1);
                        assert(o.ongoing_step@[m] == q as usize);
                    }
                    if o.ongoing_step@.contains(q as usize) {
                        let m = choose|m: int| 0 <= m < o.ongoing_step@.len() && o.ongoing_step@[m] == q as usize;
                        assert(n[m] == q as usize);
                    }
                } else {
                    assert(n[n.len() - 1] == p);
                }
            }
            assert(n.no_duplicates()) by {
                assert forall|a: int, b: int| 0 <= a < n.len() && 0 <= b < n.len() && a != b implies n[a] != n[b] by {
                    if a < n.len() - 1 && b < n.len() - 1 {
                        assert(n[a] == o.ongoing_step@[a]);
                        assert(n[b] == o.ongoing_step@[b]);
                    } else if a == n.len() - 1 {
                        assert(n[b] == o.ongoing_step@[b]);
                        assert(o.ongoing_step@.contains(n[b]));
                    } else {
                        assert(n[a] == o.ongoing_step@[a]);
                        assert(o.ongoing_step@.contains(n[a]));
                    }
                }
            }
            assert(in_range(n, gg.num_patterns()));
            assert forall|q: int, x: int|
                0 <= q < gg.num_patterns() && !self.remaining_patterns@[q] && #[trigger] gg.edge(q, x)
                    implies self.avail(x) || self.all_produced_vars@[x] by {
                if q == p as int {
                    let m = choose|m: int| 0 <= m < pv.variables@.len() && pv.variables@[m] == x as usize;
                    assert(self.all_produced_vars@[x]);
                } else {
                    assert(o.avail(x) || o.all_produced_vars@[x]);
                }
            }
            assert forall|x: int|
                0 <= x < gg.num_vars() && (self.avail(x) || self.all_produced_vars@[x]) implies grounded(
                gg,
                self.remaining_patterns@,
                x,
            ) by {
                if o.avail(x) || o.all_produced_vars@[x] {
                    assert(grounded(gg, o.remaining_patterns@, x));
                    if !gg.is_input(x) {
                        let q = choose|q: int|
                            0 <= q < gg.num_patterns() && !o.remaining_patterns@[q] && #[trigger] gg.edge(q, x);
                        assert(!self.remaining_patterns@[q]);
                    }
                } else {
                    let m = choose|m: int| 0 <= m < pv.variables@.len() && pv.variables@[m] == x as usize;
                    assert(gg.edge(p as int, x));
                }
            }
            assert forall|x: int|
                0 <= x < gg.num_vars() && self.ongoing_step_produced_vars@[x] implies exists|i: int|
                    0 <= i < n.len() && #[trigger] gg.edge(n[i] as int, x) by {
                if o.ongoing_step_produced_vars@[x] {
                    let i = choose|i: int|
                        0 <= i < o.ongoing_step@.len() && #[trigger] gg.edge(o.ongoing_step@[i] as int, x);
                    assert(n[i] == o.ongoing_step@[i]);
                } else {
                    let m = choose|m: int| 0 <= m < pv.variables@.len() && pv.variables@[m] == x as usize;
                    assert(gg.edge(n[n.len() - 1] as int, x));
                }
            }
            assert forall|x: int|
                0 <= x < gg.num_vars() && self.all_produced_vars@[x] implies self.ordered_vars@[x]
                    || self.ongoing_step_produced_vars@[x] by {
                if o.all_produced_vars@[x] {
                    assert(o.ordered_vars@[x] || o.ongoing_step_produced_vars@[x]);
                }
            }
            if let Some(v) = join {
                assert forall|i: int| 0 <= i < n.len() implies #[trigger] gg.edge(n[i] as int, v as int) by {
                    if i < n.len() - 1 {
                        assert(n[i] == o.ongoing_step@[i]);
                    }
                }
            }
            assert forall|q: int| 0 <= q < gg.num_patterns() implies #[trigger] self.step_covers(q) by {
                assert(o.step_covers(q));
            }
        }
    }
}

/// A candidate next pattern for a plan, with the cost it adds, the direction it takes, and the
/// variable it joins the ongoing step on, if any.
#[derive(Clone, Copy, Debug)]
pub struct StepExtension {
    pub pattern_id: usize,
    pub pattern_metadata: CostMetaData,
    pub step_cost: Cost,
    pub step_join_var: Option<usize>,
    pub heuristic: Cost,
}

impl PartialCostPlan {
    /// The variables bound by the plan so far, as a membership vector.
    pub open spec fn avail_seq(&self, g: Graph) -> Seq<bool> {
        Seq::new(g.num_vars(), |v: int| self.avail(v))
    }

    /// `e` names a remaining pattern; a join variable it carries is referenced by the pattern and
    /// by every member of the ongoing step, and agrees with the step's join variable.
    pub open spec fn ext_ok(&self, g: Graph, e: StepExtension) -> bool {
        let p = e.pattern_id;
        &&& p < g.num_patterns()
        &&& self.remaining_patterns@[p as int]
        &&& e.step_join_var matches Some(v) ==> {
            &&& v < g.num_vars()
            &&& g.edge(p as int, v as int)
            &&& g.pattern(p as int).is_constraint_spec()
            &&& self.ongoing_step_join_var.is_none() ==> self.ongoing_step@.len() == 1 && g.edge(
                self.ongoing_step@[0] as int,
                v as int,
            )
            &&& self.ongoing_step_join_var matches Some(w) ==> w == v
        }
    }

    /// A copy of this plan.
    fn duplicate(&self, Ghost(g): Ghost<Graph>) -> (r: PartialCostPlan)
        requires
            self.inv(g),
        ensures
            r.inv(g),
            r.ord() == self.ord(),
            r.remaining_patterns@ == self.remaining_patterns@,
            r.remaining_count == self.remaining_count,
            r.ongoing_step@ == self.ongoing_step@,
            r.ongoing_step_stash@ == self.ongoing_step_stash@,
            r.ongoing_step_join_var == self.ongoing_step_join_var,
            r.ongoing_step_produced_vars@ == self.ongoing_step_produced_vars@,
            r.ongoing_step_stash_produced_vars@ == self.ongoing_step_stash_produced_vars@,
            r.ordered_vars@ == self.ordered_vars@,
            r.all_produced_vars@ == self.all_produced_vars@,
            r.cumulative_cost == self.cumulative_cost,
            r.ongoing_step_cost == self.ongoing_step_cost,
            r.heuristic == self.heuristic,
            r.pattern_metadata@ == self.pattern_metadata@,
    {
        let r = PartialCostPlan {
            vertex_ordering: copy_vec(&self.vertex_ordering),
            input_count: self.input_count,
            ordered_vars: copy_vec(&self.ordered_vars),
            steps: copy_steps(&self.steps),
            cumulative_cost: self.cumulative_cost,
            ongoing_step: copy_vec(&self.ongoing_step),
            ongoing_step_stash: copy_vec(&self.ongoing_step_stash),
            ongoing_step_cost: self.ongoing_step_cost,
            ongoing_step_produced_vars: copy_vec(&self.ongoing_step_produced_vars),
            ongoing_step_stash_produced_vars: copy_vec(&self.ongoing_step_stash_produced_vars),
            ongoing_step_join_var: self.ongoing_step_join_var,
            all_produced_vars: copy_vec(&self.all_produced_vars),
            remaining_patterns: copy_vec(&self.remaining_patterns),
            remaining_count: self.remaining_count,
            pattern_metadata: copy_vec(&self.pattern_metadata),
            heuristic: self.heuristic,
        };
        proof {
            assert forall|q: int| 0 <= q < g.num_patterns() implies #[trigger] r.placed_once(q) by {
                assert(self.placed_once(q));
            }
            assert forall|st: int| 0 <= st < r.steps@.len() implies step_joins(
                g,
                #[trigger] r.steps@[st].members@,
                r.steps@[st].join_var,
            ) by {
                assert(step_joins(g, self.steps@[st].members@, self.steps@[st].join_var));
            }
            assert forall|st: int| 0 <= st < r.steps@.len() implies #[trigger] step_in_range(g, r.steps@[st]) by {
                assert(step_in_range(g, self.steps@[st]));
            }
            assert(steps_disjoint(r.steps@)) by {
                assert forall|st: int| 0 <= st < r.steps@.len() implies #[trigger] step_distinct(r.steps@[st]) by {
                    assert(step_distinct(self.steps@[st]));
                }
                assert forall|s1: int, s2: int, q: usize|
                    0 <= s1 < r.steps@.len() && 0 <= s2 < r.steps@.len() && #[trigger] in_step(r.steps@[s1], q)
                        && #[trigger] in_step(r.steps@[s2], q) implies s1 == s2 by {
                    assert(in_step(self.steps@[s1], q));
                    assert(in_step(self.steps@[s2], q));
                }
            }
            assert forall|q: int| 0 <= q < g.num_patterns() implies #[trigger] r.step_covers(q) by {
                assert(self.step_covers(q));
                let qu = q as usize;
                if in_some_step(self.steps@, qu) {
                    let st = choose|st: int| 0 <= st < self.steps@.len() && #[trigger] in_step(self.steps@[st], qu);
                    assert(in_step(r.steps@[st], qu));
                }
                if in_some_step(r.steps@, qu) {
                    let st = choose|st: int| 0 <= st < r.steps@.len() && #[trigger] in_step(r.steps@[st], qu);
                    assert(in_step(self.steps@[st], qu));
                }
            }
            assert forall|x: int| r.avail(x) == self.avail(x) by {}
            assert(self.vars_ok(g));
            assert forall|x: int|
                0 <= x < g.num_vars() && r.ongoing_step_produced_vars@[x] implies exists|i: int|
                    0 <= i < r.ongoing_step@.len() && #[trigger] g.edge(r.ongoing_step@[i] as int, x) by {
                let i = choose|i: int|
                    0 <= i < self.ongoing_step@.len() && #[trigger] g.edge(self.ongoing_step@[i] as int, x);
                assert(g.edge(r.ongoing_step@[i] as int, x));
            }
            assert forall|x: int|
                0 <= x < g.num_vars() && r.ongoing_step_stash_produced_vars@[x] implies exists|i: int|
                    0 <= i < r.ongoing_step_stash@.len() && #[trigger] g.edge(r.ongoing_step_stash@[i] as int, x) by {
                let i = choose|i: int|
                    0 <= i < self.ongoing_step_stash@.len() && #[trigger] g.edge(self.ongoing_step_stash@[i] as int, x);
                assert(g.edge(r.ongoing_step_stash@[i] as int, x));
            }
        }
        r
    }

    /// The variable on which pattern `p` could join the ongoing step: the one variable of `p`
    /// that the step produces and that `p` can join on, provided it is the variable the step
    /// already sorts on or, for a step without one yet, the one its first member's direction
    /// sorts on.
    fn determine_joinability(&self, g: &Graph, p: usize) -> (r: Option<usize>)
        requires
            self.inv(*g),
            p < g.num_patterns(),
            self.remaining_patterns@[p as int],
        ensures
            self.ext_ok(
                *g,
                StepExtension {
                    pattern_id: p,
                    pattern_metadata: CostMetaData::NoMetaData,
                    step_cost: Cost::noop(),
                    step_join_var: r,
                    heuristic: Cost::noop(),
                },
            ),
            r == joinability(*self, *g, p),
    {
        if self.ongoing_step.len() == 0 {
            return None;
        }
        let prev = self.ongoing_step[0];
        let prev_v = &g.patterns[prev];
        let pv = &g.patterns[p];
        if !prev_v.is_constraint() || !pv.is_constraint() {
            return None;
        }
        let mut candidate: Option<usize> = None;
        let mut count: usize = 0;
        let mut k: usize = 0;
        while k < pv.variables.len()
            invariant
                self.inv(*g),
                p < g.num_patterns(),
                *pv == g.patterns@[p as int],
                k <= pv.variables@.len(),
                count <= k,
                count == join_candidates(*self, *pv, k as int),
                candidate == last_candidate(*self, *pv, k as int),
                candidate matches Some(c) ==> c < g.num_vars() && g.edge(p as int, c as int),
            decreases pv.variables@.len() - k,
        {
            let w = pv.variables[k];
            if self.ongoing_step_produced_vars[w] && pv.can_join_on(w) {
                proof {
                    assert(pv.variables@[k as int] == w);
                }
                candidate = Some(w);
                count = count + 1;
            }
            k = k + 1;
        }
        if count != 1 {
            return None;
        }
        let cand = match candidate {
            Some(c) => c,
            None => {
                return None;
            },
        };
        let dir = match self.pattern_metadata[prev] {
            CostMetaData::Direction(d) => d,
            CostMetaData::NoMetaData => {
                return None;
            },
        };
        match self.ongoing_step_join_var {
            None => {
                proof {
                    assert(forall|i: int| 0 <= i < prev_v.variables@.len() ==> prev_v.variables@[i] < g.num_vars());
                }
                match prev_v.join_from_direction(dir, &self.ongoing_step_produced_vars) {
                    Some(j) => if j == cand {
                        proof {
                            assert(self.ongoing_step@.len() == 1);
                            assert(prev_v.variables@.contains(cand));
                        }
                        Some(cand)
                    } else {
                        None
                    },
                    None => None,
                }
            },
            Some(j) => if j == cand {
                Some(cand)
            } else {
                None
            },
        }
    }
}

/// The cost pattern `p` adds to `plan` and its metadata: joined on `join`, its direction is the
/// one that sorts on the join variable, costed on what the ordering binds, and merged with the
/// ongoing step's cost over the join variable's expected size; otherwise costed on `avail`.
pub open spec fn added_cost_spec(
    plan: PartialCostPlan,
    g: Graph,
    p: usize,
    avail: Seq<bool>,
    join: Option<usize>,
) -> (Cost, CostMetaData) {
    let pv = g.pattern(p as int);
    match join {
        Some(v) => if pv.is_constraint_spec() && pv.binary() {
            let d = if v == pv.lhs() {
                Direction::Canonical
            } else {
                Direction::Reverse
            };
            let (c, m) = pv.cost_spec(plan.ordered_vars@, Some(d));
            (crate::cost::join_spec(plan.ongoing_step_cost, c, g.variables@[v as int].expected_size), m)
        } else {
            pv.cost_spec(avail, None)
        },
        None => pv.cost_spec(avail, None),
    }
}

/// How many of the variables `0..n` are bound once pattern `p` is added to `plan`.
pub open spec fn produced_count(plan: PartialCostPlan, g: Graph, p: int, n: int) -> nat
    decreases n,
{
    if n <= 0 {
        0
    } else {
        produced_count(plan, g, p, n - 1) + if plan.all_produced_vars@[n - 1]
            || plan.ongoing_step_produced_vars@[n - 1] || g.pattern(p).references((n - 1) as usize) {
            1nat
        } else {
            0nat
        }
    }
}

/// Variable `w` of pattern `pv` was produced by the ongoing step and `pv` can join on it.
pub open spec fn join_candidate(plan: PartialCostPlan, pv: PatternVertex, w: usize) -> bool {
    plan.ongoing_step_produced_vars@[w as int] && pv.binary() && (w == pv.lhs() || w == pv.rhs())
}

/// How many of the first `n` variables of `pv` are join candidates.
pub open spec fn join_candidates(plan: PartialCostPlan, pv: PatternVertex, n: int) -> nat
    decreases n,
{
    if n <= 0 {
        0
    } else {
        join_candidates(plan, pv, n - 1) + if join_candidate(plan, pv, pv.variables@[n - 1]) {
            1nat
        } else {
            0nat
        }
    }
}

/// The last join candidate among the first `n` variables of `pv`.
pub open spec fn last_candidate(plan: PartialCostPlan, pv: PatternVertex, n: int) -> Option<usize>
    decreases n,
{
    if n <= 0 {
        None
    } else if join_candidate(plan, pv, pv.variables@[n - 1]) {
        Some(pv.variables@[n - 1])
    } else {
        last_candidate(plan, pv, n - 1)
    }
}

/// The variable on which pattern `p` may join the ongoing step: both it and the step's first
/// member are constraints, exactly one of its variables is a join candidate, the first member
/// has a direction, and the candidate is the step's join variable or, for a step without one
/// yet, the variable the first member's direction sorts on.
pub open spec fn joinability(plan: PartialCostPlan, g: Graph, p: usize) -> Option<usize> {
    if plan.ongoing_step@.len() == 0 {
        None
    } else {
        let first = plan.ongoing_step@[0];
        let prev = g.pattern(first as int);
        let pv = g.pattern(p as int);
        if !prev.is_constraint_spec() || !pv.is_constraint_spec() {
            None
        } else if join_candidates(plan, pv, pv.variables@.len() as int) != 1 {
            None
        } else {
            match last_candidate(plan, pv, pv.variables@.len() as int) {
                None => None,
                Some(cand) => match plan.pattern_metadata@[first as int] {
                    CostMetaData::NoMetaData => None,
                    CostMetaData::Direction(d) => match plan.ongoing_step_join_var {
                        None => if prev.join_from_direction_spec(d, plan.ongoing_step_produced_vars@)
                            == Some(cand) {
                            Some(cand)
                        } else {
                            None
                        },
                        Some(j) => if j == cand {
                            Some(cand)
                        } else {
                            None
                        },
                    },
                },
            }
        }
    }
}

/// The extension of `plan` by pattern `p` joining on `join`: its cost and metadata, and the
/// cost so far (the ongoing step closed unless it joins) chained with its cost and the estimate
/// of completing the plan.
pub open spec fn extension_of(plan: PartialCostPlan, g: Graph, p: usize, join: Option<usize>) -> StepExtension {
    let (c, m) = added_cost_spec(plan, g, p, plan.avail_seq(g), join);
    let before = if join is None {
        chain_spec(plan.cumulative_cost, plan.ongoing_step_cost)
    } else {
        plan.cumulative_cost
    };
    let remaining: nat = if plan.remaining_count == 0 { 1 } else { plan.remaining_count as nat };
    StepExtension {
        pattern_id: p,
        pattern_metadata: m,
        step_cost: c,
        step_join_var: join,
        heuristic: chain_spec(
            chain_spec(before, c),
            crate::cost::completion_spec(remaining, produced_count(plan, g, p as int, g.num_vars() as int)),
        ),
    }
}

/// The extensions of `plan` by its remaining patterns `0..n` whose required variables are bound,
/// in pattern order: for each, one that does not join, then one that joins where it can.
pub open spec fn extensions_spec(plan: PartialCostPlan, g: Graph, n: int) -> Seq<StepExtension>
    decreases n,
{
    if n <= 0 {
        Seq::empty()
    } else {
        let prev = extensions_spec(plan, g, n - 1);
        let p = (n - 1) as usize;
        if plan.remaining_patterns@[n - 1] && all_available(g.pattern(n - 1).required@, plan.avail_seq(g)) {
            let plain = prev.push(extension_of(plan, g, p, None));
            match joinability(plan, g, p) {
                Some(v) => plain.push(extension_of(plan, g, p, Some(v))),
                None => plain,
            }
        } else {
            prev
        }
    }
}

proof fn lemma_noop_chain()
    ensures
        chain_spec(Cost::noop(), Cost::noop()) == Cost::noop(),
        crate::cost::sat(0) == 0,
        chain_spec(Cost::noop(), Cost { cost: crate::cost::sat(0), io_ratio: SCALE }) == Cost::noop(),
{
    assert(1000int * 0 / 1000 == 0) by (nonlinear_arith);
    assert(1000int * 1000 / 1000 == 1000) by (nonlinear_arith);
}

/// The cumulative cost of `plan` once its ongoing step and stash are closed.
pub open spec fn finished_cost(plan: PartialCostPlan) -> Cost {
    chain_spec(
        chain_spec(plan.cumulative_cost, plan.ongoing_step_cost),
        Cost { cost: crate::cost::sat(plan.ongoing_step_stash@.len() * TRIVIAL_COST), io_ratio: SCALE },
    )
}

/// A final beam of the search: one or more plans with every pattern placed.
pub open spec fn final_beam(g: Graph, beam: Seq<PartialCostPlan>) -> bool {
    &&& beam.len() > 0
    &&& forall|i: int| 0 <= i < beam.len() ==> (#[trigger] beam[i]).inv(g) && beam[i].remaining_count == 0
}

proof fn lemma_bound_is_grounded(plan: PartialCostPlan, g: Graph, x: int)
    requires
        plan.vars_ok(g),
        0 <= x < g.num_vars(),
        plan.avail(x) || plan.all_produced_vars@[x],
    ensures
        grounded(g, plan.remaining_patterns@, x),
{
}

/// `r` is `plan` after extension `e` closed the ongoing step and opened a new one.
pub open spec fn new_step_applied(plan: PartialCostPlan, e: StepExtension, r: PartialCostPlan, g: Graph) -> bool {
    let p = e.pattern_id;
        &&& r.ongoing_step@ == seq![p]
        &&& r.ongoing_step_stash@.len() == 0
        &&& r.ongoing_step_join_var is None
        &&& r.ord().len() >= plan.ord().len()
        &&& r.ord().take(plan.ord().len() as int) == plan.ord()
        &&& r.cumulative_cost == chain_spec(
            chain_spec(plan.cumulative_cost, plan.ongoing_step_cost),
            Cost {
                cost: crate::cost::sat(plan.ongoing_step_stash@.len() * TRIVIAL_COST),
                io_ratio: SCALE,
            },
        )
        &&& r.ongoing_step_cost == e.step_cost
        &&& r.heuristic == e.heuristic
        &&& r.pattern_metadata@ == plan.pattern_metadata@.update(p as int, e.pattern_metadata)
        &&& forall|v: int|
            0 <= v < g.num_vars() ==> (r.ongoing_step_produced_vars@[v] <==> (!(plan.avail(v)
                || plan.all_produced_vars@[v]) && g.pattern(p as int).references(v as usize)))
}

/// The kinds of move an extension makes.
pub open spec fn is_stash_move(g: Graph, e: StepExtension) -> bool {
    g.pattern(e.pattern_id as int).can_be_trivial_spec() && e.step_cost.trivial_spec()
}

pub open spec fn is_continue_move(plan: PartialCostPlan, g: Graph, e: StepExtension) -> bool {
    &&& !is_stash_move(g, e)
    &&& g.pattern(e.pattern_id as int).is_constraint_spec()
    &&& e.step_join_var is Some
    &&& (plan.ongoing_step_join_var is None || plan.ongoing_step_join_var == e.step_join_var)
}

/// `r` is `plan` after extension `e`: a trivial check joins the stash and nothing else changes;
/// a constraint that joins the ongoing step becomes its member, with the join variable, the
/// extension's step cost and heuristic; anything else closes the step (the cumulative cost
/// grows by the step's cost and its stash's) and opens a new one holding only the pattern.
pub open spec fn extension_applied(
    plan: PartialCostPlan,
    e: StepExtension,
    r: PartialCostPlan,
    g: Graph,
) -> bool {
    let p = e.pattern_id;
    if is_stash_move(g, e) {
        &&& r.ongoing_step_stash@ == plan.ongoing_step_stash@.push(p)
        &&& r.ongoing_step@ == plan.ongoing_step@
        &&& r.ongoing_step_join_var == plan.ongoing_step_join_var
        &&& r.ord() == plan.ord()
        &&& r.cumulative_cost == plan.cumulative_cost
        &&& r.ongoing_step_cost == plan.ongoing_step_cost
        &&& r.heuristic == plan.heuristic
        &&& r.pattern_metadata@ == plan.pattern_metadata@.update(p as int, CostMetaData::NoMetaData)
        &&& forall|v: int|
            0 <= v < g.num_vars() ==> (r.ongoing_step_stash_produced_vars@[v] <==> (
            plan.ongoing_step_stash_produced_vars@[v] || g.pattern(p as int).references(v as usize)))
    } else if is_continue_move(plan, g, e) {
        &&& r.ongoing_step@ == plan.ongoing_step@.push(p)
        &&& r.ongoing_step_stash@ == plan.ongoing_step_stash@
        &&& r.ongoing_step_join_var == e.step_join_var
        &&& r.ord() == plan.ord()
        &&& r.cumulative_cost == plan.cumulative_cost
        &&& r.ongoing_step_cost == e.step_cost
        &&& r.heuristic == e.heuristic
        &&& r.pattern_metadata@ == plan.pattern_metadata@.update(p as int, e.pattern_metadata)
        &&& forall|v: int|
            0 <= v < g.num_vars() ==> (r.ongoing_step_produced_vars@[v] <==> (plan.ongoing_step_produced_vars@[v]
                || (!plan.all_produced_vars@[v] && g.pattern(p as int).references(v as usize))))
    } else {
        new_step_applied(plan, e, r, g)
    }
}

impl PartialCostPlan {
    /// The plan after taking extension `e`: a trivial check joins the stash, a constraint that
    /// can join the ongoing step continues it, anything else closes the step and opens a new one.
    fn extend_with(&self, g: &Graph, e: StepExtension) -> (r: PartialCostPlan)
        requires
            self.inv(*g),
            self.ext_ok(*g, e),
        ensures
            r.inv(*g),
            r.remaining_patterns@ == self.remaining_patterns@.update(e.pattern_id as int, false),
            r.remaining_count + 1 == self.remaining_count,
            extension_applied(*self, e, r, *g),
    {
        let p = e.pattern_id;
        let mut r = self.duplicate(Ghost(*g));
        let pv = &g.patterns[p];
        if pv.can_be_trivial() && e.step_cost.is_trivial() {
            r.add_to_stash(g, p);
            proof {
                assert(is_stash_move(*g, e));
                assert(extension_applied(*self, e, r, *g));
            }
        } else if !pv.is_constraint() {
            let ghost opened = r;
            r.close_step(g);
            let ghost closed = r;
            r.take_into_step(g, p, e.pattern_metadata, None, e.step_cost, e.heuristic);
            proof {
                assert(r.ongoing_step@ =~= seq![p]);
                assert forall|v: int| 0 <= v < g.num_vars() implies (r.ongoing_step_produced_vars@[v] <==> (!(
                self.avail(v) || self.all_produced_vars@[v]) && g.pattern(p as int).references(v as usize))) by {
                    assert(!closed.ongoing_step_produced_vars@[v]);
                    assert(opened.avail(v) == self.avail(v));
                    assert(closed.all_produced_vars@[v] == (opened.avail(v) || opened.all_produced_vars@[v]));
                }
                assert(!is_stash_move(*g, e) && !is_continue_move(*self, *g, e));
                assert(r.ongoing_step_stash@.len() == 0);
                assert(r.ongoing_step_join_var is None);
                assert(r.ord().len() >= self.ord().len());
                assert(r.ord().take(self.ord().len() as int) == self.ord());
                assert(r.cumulative_cost == finished_cost(*self));
                assert(r.ongoing_step_cost == e.step_cost);
                assert(r.heuristic == e.heuristic);
                assert(r.pattern_metadata@ == self.pattern_metadata@.update(p as int, e.pattern_metadata));
                assert(r.ongoing_step@ == seq![p]);
                assert(new_step_applied(*self, e, r, *g));
                assert(extension_applied(*self, e, r, *g));
            }
        } else {
            let continues = match e.step_join_var {
                Some(v) => match self.ongoing_step_join_var {
                    None => true,
                    Some(w) => w == v,
                },
                None => false,
            };
            if continues {
                proof {
                    let v = e.step_join_var->Some_0;
                    assert forall|i: int| 0 <= i < r.ongoing_step@.len() implies #[trigger] g.edge(
                        r.ongoing_step@[i] as int,
                        v as int,
                    ) by {
                        if self.ongoing_step_join_var.is_none() {
                            assert(i == 0);
                        }
                    }
                }
                r.take_into_step(
                    g,
                    p,
                    e.pattern_metadata,
                    e.step_join_var,
                    e.step_cost,
                    e.heuristic,
                );
            } else {
                let ghost opened = r;
                r.close_step(g);
                let ghost closed = r;
                r.take_into_step(g, p, e.pattern_metadata, None, e.step_cost, e.heuristic);
                proof {
                    assert(r.ongoing_step@ =~= seq![p]);
                    assert forall|v: int| 0 <= v < g.num_vars() implies (r.ongoing_step_produced_vars@[v] <==> (!(
                    self.avail(v) || self.all_produced_vars@[v]) && g.pattern(p as int).references(v as usize))) by {
                        assert(!closed.ongoing_step_produced_vars@[v]);
                        assert(opened.avail(v) == self.avail(v));
                        assert(closed.all_produced_vars@[v] == (opened.avail(v) || opened.all_produced_vars@[v]));
                    }
                }
            }
        }
        r
    }

    /// The cost that pattern `p` adds to this plan, and its metadata. Joining on `join` forces
    /// the direction that sorts on it and merges with the ongoing step's cost.
    fn compute_added_cost(&self, g: &Graph, p: usize, avail: &Vec<bool>, join: Option<usize>) -> (r: (
        Cost,
        CostMetaData,
    ))
        requires
            self.inv(*g),
            p < g.num_patterns(),
            avail@.len() == g.num_vars(),
            join matches Some(v) ==> v < g.num_vars(),
        ensures
            r == added_cost_spec(*self, *g, p, avail@, join),
    {
        let pv = &g.patterns[p];
        proof {
            assert(forall|i: int| 0 <= i < pv.variables@.len() ==> pv.variables@[i] < g.num_vars());
        }
        match join {
            Some(v) => if pv.is_constraint() && pv.is_binary() {
                let size = g.variables[v].expected_size;
                let fixed = pv.direction_from_join_var(v);
                let (c, m) = pv.cost_and_metadata(&self.ordered_vars, Some(fixed));
                (self.ongoing_step_cost.join(&c, size), m)
            } else {
                pv.cost_and_metadata(avail, None)
            },
            None => pv.cost_and_metadata(avail, None),
        }
    }

    /// How many variables are bound once `p` is added.
    fn produced_after(&self, g: &Graph, p: usize) -> (r: usize)
        requires
            self.inv(*g),
            p < g.num_patterns(),
        ensures
            r == produced_count(*self, *g, p as int, g.num_vars() as int),
            r <= g.num_vars(),
    {
        let pv = &g.patterns[p];
        let nv = g.variables.len();
        let mut n: usize = 0;
        let mut v: usize = 0;
        while v < nv
            invariant
                self.inv(*g),
                nv == g.num_vars(),
                v <= nv,
                n <= v,
                *pv == g.patterns@[p as int],
                n == produced_count(*self, *g, p as int, v as int),
            decreases nv - v,
        {
            if self.all_produced_vars[v] || self.ongoing_step_produced_vars[v] || pv.has_variable(v) {
                n = n + 1;
            }
            v = v + 1;
        }
        n
    }

    /// The extension of this plan by `p` joining on `join`, scored by the cost so far plus the
    /// estimated cost of completing the plan.
    fn make_extension(&self, g: &Graph, p: usize, avail: &Vec<bool>, join: Option<usize>) -> (r:
        StepExtension)
        requires
            self.inv(*g),
            p < g.num_patterns(),
            avail@.len() == g.num_vars(),
            join matches Some(v) ==> v < g.num_vars(),
        ensures
            r.pattern_id == p,
            r.step_join_var == join,
            (r.step_cost, r.pattern_metadata) == added_cost_spec(*self, *g, p, avail@, join),
            r.heuristic == chain_spec(
                chain_spec(
                    if join is None {
                        chain_spec(self.cumulative_cost, self.ongoing_step_cost)
                    } else {
                        self.cumulative_cost
                    },
                    r.step_cost,
                ),
                crate::cost::completion_spec(
                    if self.remaining_count == 0 {
                        1nat
                    } else {
                        self.remaining_count as nat
                    },
                    produced_count(*self, *g, p as int, g.num_vars() as int),
                ),
            ),
    {
        let (added, meta) = self.compute_added_cost(g, p, avail, join);
        let before = match join {
            None => self.cumulative_cost.chain(&self.ongoing_step_cost),
            Some(_) => self.cumulative_cost,
        };
        let including = before.chain(&added);
        let remaining = if self.remaining_count == 0 {
            1
        } else {
            self.remaining_count
        };
        let completion = completion_cost(remaining, self.produced_after(g, p));
        StepExtension {
            pattern_id: p,
            pattern_metadata: meta,
            step_cost: added,
            step_join_var: join,
            heuristic: including.chain(&completion),
        }
    }

    /// The variables bound by the plan so far.
    fn available_vars(&self, g: &Graph) -> (r: Vec<bool>)
        requires
            self.inv(*g),
        ensures
            r@ == self.avail_seq(*g),
    {
        let nv = g.variables.len();
        let mut r: Vec<bool> = Vec::new();
        let mut v: usize = 0;
        while v < nv
            invariant
                self.inv(*g),
                nv == g.num_vars(),
                v <= nv,
                r@ == self.avail_seq(*g).take(v as int),
            decreases nv - v,
        {
            r.push(
                self.ordered_vars[v] || self.ongoing_step_produced_vars[v]
                    || self.ongoing_step_stash_produced_vars[v],
            );
            proof {
                assert(r@ =~= self.avail_seq(*g).take(v + 1));
            }
            v = v + 1;
        }
        proof {
            assert(self.avail_seq(*g).take(v as int) =~= self.avail_seq(*g));
        }
        r
    }

    /// Every way to extend this plan by one remaining pattern whose required variables are
    /// bound: without a join, and also with one where the pattern can join the ongoing step.
    fn extensions(&self, g: &Graph) -> (r: Vec<StepExtension>)
        requires
            self.inv(*g),
        ensures
            forall|i: int| 0 <= i < r@.len() ==> self.ext_ok(*g, #[trigger] r@[i]),
            forall|i: int|
                0 <= i < r@.len() ==> all_available(
                    g.pattern((#[trigger] r@[i]).pattern_id as int).required@,
                    self.avail_seq(*g),
                ),
            r@.len() == 0 ==> forall|p: int|
                0 <= p < g.num_patterns() && self.remaining_patterns@[p] ==> !all_available(
                    g.pattern(p).required@,
                    self.avail_seq(*g),
                ),
            r@ == extensions_spec(*self, *g, g.num_patterns() as int),
    {
        let avail = self.available_vars(g);
        let np = g.patterns.len();
        let mut r: Vec<StepExtension> = Vec::new();
        let mut p: usize = 0;
        while p < np
            invariant
                self.inv(*g),
                np == g.num_patterns(),
                avail@ == self.avail_seq(*g),
                p <= np,
                forall|i: int| 0 <= i < r@.len() ==> self.ext_ok(*g, #[trigger] r@[i]),
                forall|i: int|
                    0 <= i < r@.len() ==> all_available(
                        g.pattern((#[trigger] r@[i]).pattern_id as int).required@,
                        self.avail_seq(*g),
                    ),
                r@.len() == 0 ==> forall|q: int|
                    0 <= q < p && self.remaining_patterns@[q] ==> !all_available(
                        g.pattern(q).required@,
                        self.avail_seq(*g),
                    ),
                r@ == extensions_spec(*self, *g, p as int),
            decreases np - p,
        {
            if self.remaining_patterns[p] && g.patterns[p].is_valid(&avail) {
                let join = self.determine_joinability(g, p);
                let plain = self.make_extension(g, p, &avail, None);
                proof {
                    assert(plain == extension_of(*self, *g, p, None));
                }
                r.push(plain);
                if join.is_some() {
                    let joined = self.make_extension(g, p, &avail, join);
                    proof {
                        assert(joined == extension_of(*self, *g, p, join));
                    }
                    r.push(joined);
                }
            }
            p = p + 1;
        }
        r
    }
}

/// The outcome of planning: an ordering of all vertices, the direction chosen for each pattern,
/// the steps, and the total cost.
pub struct CompletePlan {
    pub vertex_ordering: Vec<VertexId>,
    /// How many input variables lead the ordering.
    pub input_count: usize,
    pub pattern_metadata: Vec<CostMetaData>,
    pub steps: Vec<PlannedStep>,
    pub cumulative_cost: Cost,
}

#[derive(Clone, Copy, Debug, PartialEq, Eq, Structural)]
pub enum QueryPlanningError {
    /// No ordering of the patterns binds each pattern's required variables before it runs.
    ExpectedPlannableConjunction,
    /// List variables cannot be planned.
    UnimplementedLists,
    /// Optional patterns cannot be planned.
    UnimplementedOptionals,
}

impl CompletePlan {
    pub open spec fn ord(&self) -> Seq<VertexId> {
        self.vertex_ordering@
    }

    /// The plan binds the inputs and does nothing else, at no cost.
    pub open spec fn inputs_only(&self, g: Graph) -> bool {
        &&& self.cumulative_cost == Cost::noop()
        &&& forall|i: int| 0 <= i < self.ord().len() ==> self.ord()[i] is Variable
        &&& forall|v: int|
            0 <= v < g.num_vars() ==> (self.ord().contains(VertexId::Variable(v as usize))
                <==> g.is_input(v))
    }

    /// Every pattern-vertex appears exactly once; a variable-vertex appears exactly once if it is
    /// an input or some pattern references it, and otherwise not at all; each variable that is
    /// not an input comes after a pattern that references it; every pattern belongs to a step,
    /// and the members of each step agree on its join variable.
    pub open spec fn complete(&self, g: Graph) -> bool {
        &&& inputs_lead(g, self.ord(), self.input_count as nat)
        &&& self.ord().no_duplicates()
        &&& ids_in_range(g, self.ord())
        &&& vars_justified(g, self.ord())
        &&& forall|p: int|
            0 <= p < g.num_patterns() ==> #[trigger] self.ord().contains(VertexId::Pattern(p as usize))
        &&& forall|v: int|
            0 <= v < g.num_vars() ==> (#[trigger] self.ord().contains(VertexId::Variable(v as usize))
                <==> (g.is_input(v) || exists|p: int| #[trigger] g.edge(p, v)))
        &&& self.pattern_metadata@.len() == g.num_patterns()
        &&& forall|s: int|
            0 <= s < self.steps@.len() ==> step_joins(
                g,
                #[trigger] self.steps@[s].members@,
                self.steps@[s].join_var,
            )
        &&& forall|p: int| 0 <= p < g.num_patterns() ==> #[trigger] in_some_step(self.steps@, p as usize)
        &&& forall|s: int| 0 <= s < self.steps@.len() ==> #[trigger] step_in_range(g, self.steps@[s])
        &&& steps_disjoint(self.steps@)
    }
}

/// With the patterns marked in `remaining` not yet run, some remain, and each of them requires
/// a variable that is neither an input nor referenced by a pattern that has run.
pub open spec fn stuck(g: Graph, remaining: Seq<bool>) -> bool {
    &&& remaining.len() == g.num_patterns()
    &&& exists|p: int| 0 <= p < g.num_patterns() && remaining[p]
    &&& forall|p: int|
        0 <= p < g.num_patterns() && #[trigger] remaining[p] ==> exists|i: int|
            0 <= i < g.pattern(p).required@.len() && !grounded(
                g,
                remaining,
                #[trigger] g.pattern(p).required@[i] as int,
            )
}

/// `order` runs every pattern, each after every pattern it needs: each variable a pattern
/// requires is an input or referenced by a pattern earlier in `order`.
pub open spec fn runnable_order(g: Graph, order: Seq<usize>) -> bool {
    &&& forall|p: int| 0 <= p < g.num_patterns() ==> #[trigger] order.contains(p as usize)
    &&& forall|k: int| 0 <= k < order.len() ==> #[trigger] order[k] < g.num_patterns()
    &&& forall|k: int, i: int|
        0 <= k < order.len() && 0 <= i < g.pattern(order[k] as int).required@.len() ==> {
            let v = #[trigger] g.pattern(order[k] as int).required@[i] as int;
            g.is_input(v) || exists|j: int| 0 <= j < k && #[trigger] g.edge(order[j] as int, v)
        }
}

proof fn lemma_first_remaining(order: Seq<usize>, remaining: Seq<bool>, n: int)
    requires
        0 <= n <= order.len(),
        forall|k: int| 0 <= k < order.len() ==> order[k] < remaining.len(),
        exists|k: int| 0 <= k < n && remaining[order[k] as int],
    ensures
        exists|k: int|
            0 <= k < n && remaining[order[k] as int] && forall|j: int|
                0 <= j < k ==> !remaining[order[j] as int],
    decreases n,
{
    if exists|k: int| 0 <= k < n - 1 && remaining[order[k] as int] {
        lemma_first_remaining(order, remaining, n - 1);
    } else {
        assert(remaining[order[n - 1] as int]);
        assert forall|j: int| 0 <= j < n - 1 implies !remaining[order[j] as int] by {}
    }
}

/// A stuck state rules out every runnable order: no order of the patterns binds each pattern's
/// required variables before it runs.
pub proof fn lemma_stuck_has_no_runnable_order(g: Graph, remaining: Seq<bool>, order: Seq<usize>)
    requires
        g.wf(),
        stuck(g, remaining),
    ensures
        !runnable_order(g, order),
{
    if runnable_order(g, order) {
        let p0 = choose|p: int| 0 <= p < g.num_patterns() && remaining[p];
        assert(order.contains(p0 as usize));
        lemma_first_remaining(order, remaining, order.len() as int);
        let k = choose|k: int|
            0 <= k < order.len() && remaining[order[k] as int] && forall|j: int|
                0 <= j < k ==> !remaining[order[j] as int];
        let p = order[k] as int;
        let i = choose|i: int|
            0 <= i < g.pattern(p).required@.len() && !grounded(
                g,
                remaining,
                #[trigger] g.pattern(p).required@[i] as int,
            );
        let v = g.pattern(p).required@[i] as int;
        assert(g.is_input(v) || exists|j: int| 0 <= j < k && #[trigger] g.edge(order[j] as int, v));
        if !g.is_input(v) {
            let j = choose|j: int| 0 <= j < k && #[trigger] g.edge(order[j] as int, v);
            assert(!remaining[order[j] as int]);
            assert(g.edge(order[j] as int, v));
        }
    }
}

impl PartialCostPlan {
    proof fn lemma_no_extension_is_stuck(&self, g: Graph)
        requires
            self.inv(g),
            self.remaining_count > 0,
            forall|p: int|
                0 <= p < g.num_patterns() && self.remaining_patterns@[p] ==> !all_available(
                    g.pattern(p).required@,
                    self.avail_seq(g),
                ),
        ensures
            stuck(g, self.remaining_patterns@),
    {
        if forall|p: int| 0 <= p < g.num_patterns() ==> !self.remaining_patterns@[p] {
            assert forall|p: int| 0 <= p < self.remaining_patterns@.len() implies !self.remaining_patterns@[p] by {}
            lemma_count_true_none(self.remaining_patterns@);
        }
        assert forall|p: int|
            0 <= p < g.num_patterns() && #[trigger] self.remaining_patterns@[p] implies exists|i: int|
                0 <= i < g.pattern(p).required@.len() && !grounded(
                    g,
                    self.remaining_patterns@,
                    #[trigger] g.pattern(p).required@[i] as int,
                ) by {
            let req = g.pattern(p).required@;
            let i = choose|i: int| 0 <= i < req.len() && !(req[i] < self.avail_seq(g).len() && self.avail_seq(g)[req[i] as int]);
            let v = req[i] as int;
            assert(v < g.num_vars());
            assert(!self.avail(v));
            if grounded(g, self.remaining_patterns@, v) {
                if !g.is_input(v) {
                    let q = choose|q: int|
                        0 <= q < g.num_patterns() && !self.remaining_patterns@[q] && #[trigger] g.edge(q, v);
                    assert(self.avail(v) || self.all_produced_vars@[v]);
                }
            }
        }
    }

    /// Closes the ongoing step of a plan with no remaining patterns.
    fn into_complete_plan(self, g: &Graph) -> (r: CompletePlan)
        requires
            self.inv(*g),
            self.remaining_count == 0,
        ensures
            r.complete(*g),
            r.cumulative_cost == chain_spec(
                chain_spec(self.cumulative_cost, self.ongoing_step_cost),
                Cost {
                    cost: crate::cost::sat(self.ongoing_step_stash@.len() * TRIVIAL_COST),
                    io_ratio: SCALE,
                },
            ),
            self.ongoing_step@.len() == 0 && self.ongoing_step_stash@.len() == 0 && (forall|v: int|
                0 <= v < g.num_vars() ==> !self.ongoing_step_produced_vars@[v]) ==> r.ord()
                == self.ord(),
    {
        let mut plan = self;
        let ghost o = plan;
        plan.close_step(g);
        proof {
            lemma_count_true_zero(plan.remaining_patterns@);
            let gg = *g;
            assert forall|p: int| 0 <= p < gg.num_patterns() implies #[trigger] plan.ord().contains(
                VertexId::Pattern(p as usize),
            ) by {
                assert(plan.placed_once(p));
            }
            assert forall|v: int|
                0 <= v < gg.num_vars() implies (#[trigger] plan.ord().contains(VertexId::Variable(v as usize))
                    <==> (gg.is_input(v) || exists|p: int| #[trigger] gg.edge(p, v))) by {
                if exists|p: int| #[trigger] gg.edge(p, v) {
                    let p = choose|p: int| #[trigger] gg.edge(p, v);
                    assert(!plan.remaining_patterns@[p]);
                    assert(plan.avail(v) || plan.all_produced_vars@[v]);
                }
                if plan.ordered_vars@[v] {
                    assert(grounded(gg, plan.remaining_patterns@, v));
                }
            }
            assert forall|p: int| 0 <= p < gg.num_patterns() implies #[trigger] in_some_step(
                plan.steps@,
                p as usize,
            ) by {
                assert(plan.step_covers(p));
                assert(plan.ord().contains(VertexId::Pattern(p as usize)));
            }
        }
        CompletePlan {
            vertex_ordering: plan.vertex_ordering,
            input_count: plan.input_count,
            pattern_metadata: plan.pattern_metadata,
            steps: plan.steps,
            cumulative_cost: plan.cumulative_cost,
        }
    }
}

pub const MAX_BEAM_WIDTH: usize = 96;

/// Up to `k` of `exts`, lowest heuristic first; ties go to the lower pattern id, then to the
/// earlier extension.
fn best_extensions(exts: &Vec<StepExtension>, k: usize) -> (r: Vec<StepExtension>)
    requires
        k >= 1,
    ensures
        exts@.len() > 0 ==> r@.len() > 0,
        forall|i: int| 0 <= i < r@.len() ==> exts@.contains(#[trigger] r@[i]),
{
    let n = exts.len();
    let mut used = filled(n, false);
    let mut r: Vec<StepExtension> = Vec::new();
    let mut n_used: usize = 0;
    while r.len() < k && n_used < n
        invariant
            n == exts@.len(),
            used@.len() == n,
            n_used <= n,
            r@.len() == n_used,
            k >= 1,
            n_used == 0 ==> forall|x: int| 0 <= x < n ==> !used@[x],
            forall|i: int| 0 <= i < r@.len() ==> exts@.contains(#[trigger] r@[i]),
        ensures
            n > 0 ==> r@.len() > 0,
            forall|i: int| 0 <= i < r@.len() ==> exts@.contains(#[trigger] r@[i]),
        decreases n - n_used,
    {
        let mut best: usize = n;
        let mut j: usize = 0;
        while j < n
            invariant
                n == exts@.len(),
                used@.len() == n,
                j <= n,
                best == n || best < j,
                best == n ==> forall|x: int| 0 <= x < j ==> used@[x],
                r@.len() == n_used,
                n_used == 0 ==> forall|x: int| 0 <= x < n ==> !used@[x],
            decreases n - j,
        {
            if !used[j] {
                if best == n {
                    best = j;
                } else {
                    let a = &exts[j];
                    let b = &exts[best];
                    if a.heuristic.cost < b.heuristic.cost || (a.heuristic.cost == b.heuristic.cost
                        && a.pattern_id < b.pattern_id) {
                        best = j;
                    }
                }
            }
            j = j + 1;
        }
        if best == n {
            proof {
                if n > 0 {
                    assert(used@[0]);
                }
            }
            break;
        }
        used.set(best, true);
        r.push(exts[best]);
        proof {
            assert(r@[r@.len() - 1] == exts@[best as int]);
            assert forall|i: int| 0 <= i < r@.len() implies exts@.contains(#[trigger] r@[i]) by {
                if i == r@.len() - 1 {
                    assert(exts@[best as int] == r@[i]);
                }
            }
        }
        n_used = n_used + 1;
    }
    r
}

/// Pattern `q` of plan `a` has left the ongoing step: it is neither remaining, ongoing nor
/// stashed.
pub open spec fn placed(a: PartialCostPlan, q: int) -> bool {
    !a.remaining_patterns@[q] && !a.ongoing_step@.contains(q as usize)
        && !a.ongoing_step_stash@.contains(q as usize)
}

/// The key by which the beam tells plans apart: how many patterns remain, which patterns are
/// placed, which are in the ongoing step, and the ongoing step's join variable.
pub open spec fn same_search_state_spec(a: PartialCostPlan, b: PartialCostPlan, np: nat) -> bool {
    &&& a.remaining_count == b.remaining_count
    &&& a.ongoing_step_join_var == b.ongoing_step_join_var
    &&& forall|q: int| 0 <= q < np ==> #[trigger] ongoing_same(a, b, q)
    &&& forall|q: int| 0 <= q < np ==> #[trigger] placed(a, q) == placed(b, q)
}

pub open spec fn ongoing_same(a: PartialCostPlan, b: PartialCostPlan, q: int) -> bool {
    a.ongoing_step@.contains(q as usize) == b.ongoing_step@.contains(q as usize)
}

/// Whether two plans have placed the same patterns, have the same non-trivial patterns in their
/// ongoing steps, and join those on the same variable.
fn same_search_state(a: &PartialCostPlan, b: &PartialCostPlan, Ghost(g): Ghost<Graph>) -> (r: bool)
    requires
        a.inv(g),
        b.inv(g),
    ensures
        r == same_search_state_spec(*a, *b, g.num_patterns()),
{
    if a.remaining_count != b.remaining_count || a.ongoing_step_join_var != b.ongoing_step_join_var {
        return false;
    }
    let np = a.remaining_patterns.len();
    let mut p: usize = 0;
    while p < np
        invariant
            a.inv(g),
            b.inv(g),
            np == g.num_patterns(),
            p <= np,
            a.remaining_count == b.remaining_count,
            a.ongoing_step_join_var == b.ongoing_step_join_var,
            forall|q: int| 0 <= q < p ==> #[trigger] ongoing_same(*a, *b, q),
            forall|q: int| 0 <= q < p ==> #[trigger] placed(*a, q) == placed(*b, q),
        decreases np - p,
    {
        let a_on = contains_id(&a.ongoing_step, p);
        let b_on = contains_id(&b.ongoing_step, p);
        let a_done = !a.remaining_patterns[p] && !a_on && !contains_id(&a.ongoing_step_stash, p);
        let b_done = !b.remaining_patterns[p] && !b_on && !contains_id(&b.ongoing_step_stash, p);
        if a_on != b_on || a_done != b_done {
            proof {
                assert(a_done == placed(*a, p as int));
                assert(b_done == placed(*b, p as int));
                if a_on != b_on {
                    assert(!ongoing_same(*a, *b, p as int));
                } else {
                    assert(placed(*a, p as int) != placed(*b, p as int));
                }
                assert(!same_search_state_spec(*a, *b, g.num_patterns()));
            }
            return false;
        }
        proof {
            assert(a_done == placed(*a, p as int));
            assert(b_done == placed(*b, p as int));
            assert(((p as int) as usize) == p);
            assert(ongoing_same(*a, *b, p as int));
            assert(placed(*a, p as int) == placed(*b, p as int));
        }
        p = p + 1;
    }
    proof {
        assert(same_search_state_spec(*a, *b, g.num_patterns()));
    }
    true
}

/// The indices of up to `width` of `plans`, lowest heuristic first, skipping any plan whose
/// search state equals that of a plan already picked.
fn select_beam(plans: &Vec<PartialCostPlan>, width: usize, Ghost(g): Ghost<Graph>) -> (r: Vec<usize>)
    requires
        width >= 1,
        forall|i: int| 0 <= i < plans@.len() ==> (#[trigger] plans@[i]).inv(g),
    ensures
        plans@.len() > 0 ==> r@.len() > 0,
        forall|i: int| 0 <= i < r@.len() ==> #[trigger] r@[i] < plans@.len(),
{
    let n = plans.len();
    let mut used = filled(n, false);
    let mut r: Vec<usize> = Vec::new();
    let mut n_used: usize = 0;
    while r.len() < width && n_used < n
        invariant
            n == plans@.len(),
            forall|i: int| 0 <= i < plans@.len() ==> (#[trigger] plans@[i]).inv(g),
            used@.len() == n,
            n_used <= n,
            n_used > 0 ==> r@.len() > 0,
            width >= 1,
            n_used == 0 ==> r@.len() == 0 && forall|x: int| 0 <= x < n ==> !used@[x],
            forall|i: int| 0 <= i < r@.len() ==> #[trigger] r@[i] < n,
        ensures
            n > 0 ==> r@.len() > 0,
            forall|i: int| 0 <= i < r@.len() ==> #[trigger] r@[i] < n,
        decreases n - n_used,
    {
        let mut best: usize = n;
        let mut j: usize = 0;
        while j < n
            invariant
                n == plans@.len(),
                used@.len() == n,
                j <= n,
                best == n || best < j,
                best == n ==> forall|x: int| 0 <= x < j ==> used@[x],
                n_used == 0 ==> r@.len() == 0 && forall|x: int| 0 <= x < n ==> !used@[x],
                n_used > 0 ==> r@.len() > 0,
            decreases n - j,
        {
            if !used[j] && (best == n || plans[j].heuristic.cost < plans[best].heuristic.cost) {
                best = j;
            }
            j = j + 1;
        }
        if best == n {
            proof {
                if n > 0 {
                    assert(used@[0]);
                }
            }
            break;
        }
        used.set(best, true);
        let mut duplicate = false;
        let mut m: usize = 0;
        while m < r.len()
            invariant
                n == plans@.len(),
                forall|i: int| 0 <= i < plans@.len() ==> (#[trigger] plans@[i]).inv(g),
                best < n,
                m <= r@.len(),
                forall|i: int| 0 <= i < r@.len() ==> #[trigger] r@[i] < n,
            decreases r@.len() - m,
        {
            if same_search_state(&plans[r[m]], &plans[best], Ghost(g)) {
                duplicate = true;
            }
            m = m + 1;
        }
        if !duplicate || r.len() == 0 {
            r.push(best);
        }
        n_used = n_used + 1;
    }
    r
}

/// Plans a graph by beam search: each round extends every plan in the beam by its best
/// extensions and keeps the best distinct results; after one round per pattern the plan of
/// lowest cumulative cost wins.
#[verifier::rlimit(60)]
pub fn beam_search_plan(g: &Graph) -> (r: Result<CompletePlan, QueryPlanningError>)
    requires
        g.wf(),
    ensures
        r matches Ok(plan) ==> plan.complete(*g),
        r is Err ==> exists|remaining: Seq<bool>| stuck(*g, remaining),
        g.num_patterns() == 0 ==> r is Ok,
        r matches Ok(plan) ==> exists|beam: Seq<PartialCostPlan>|
            #[trigger] final_beam(*g, beam) && (exists|k: int|
                0 <= k < beam.len() && plan.cumulative_cost == #[trigger] finished_cost(beam[k]))
                && forall|i: int|
                0 <= i < beam.len() ==> plan.cumulative_cost.cost <= (#[trigger] finished_cost(beam[i])).cost,
        g.num_patterns() == 0 ==> (r matches Ok(plan) ==> plan.inputs_only(*g)),
{
    let num_patterns = g.patterns.len();
    let mut beam_width: usize = if num_patterns >= MAX_BEAM_WIDTH / 2 {
        MAX_BEAM_WIDTH
    } else if num_patterns < 1 {
        2
    } else {
        num_patterns * 2
    };
    let mut extension_width: usize = num_patterns / 2 + 5;
    let mut beam: Vec<PartialCostPlan> = Vec::new();
    beam.push(PartialCostPlan::new(g));
    let mut i: usize = 0;
    while i < num_patterns
        invariant
            g.wf(),
            num_patterns == g.num_patterns(),
            i <= num_patterns,
            beam_width >= 2,
            extension_width >= 2,
            beam@.len() > 0,
            forall|b: int|
                0 <= b < beam@.len() ==> (#[trigger] beam@[b]).inv(*g) && beam@[b].remaining_count
                    == num_patterns - i,
            i == 0 ==> beam@.len() == 1 && beam@[0].inputs_only(*g),
        decreases num_patterns - i,
    {
        if i % 2 == 0 {
            if beam_width > 2 {
                beam_width = beam_width - 1;
            }
            if extension_width > 2 {
                extension_width = extension_width - 1;
            }
        }
        let mut candidates: Vec<PartialCostPlan> = Vec::new();
        let mut b: usize = 0;
        while b < beam.len()
            invariant
                g.wf(),
                num_patterns == g.num_patterns(),
                i < num_patterns,
                extension_width >= 2,
                beam@.len() > 0,
                b <= beam@.len(),
                forall|x: int|
                    0 <= x < beam@.len() ==> (#[trigger] beam@[x]).inv(*g) && beam@[x].remaining_count
                        == num_patterns - i,
                forall|x: int|
                    0 <= x < candidates@.len() ==> (#[trigger] candidates@[x]).inv(*g)
                        && candidates@[x].remaining_count + 1 == num_patterns - i,
                b > 0 && candidates@.len() == 0 ==> forall|p: int|
                    0 <= p < g.num_patterns() && beam@[0].remaining_patterns@[p] ==> !all_available(
                        g.pattern(p).required@,
                        beam@[0].avail_seq(*g),
                    ),
            decreases beam@.len() - b,
        {
            let plan = &beam[b];
            assert(plan.inv(*g));
            let exts = plan.extensions(g);
            // a trivial check is always taken first, alone
            let mut trivial: Option<StepExtension> = None;
            let mut t: usize = 0;
            while t < exts.len() && trivial.is_none()
                invariant
                    g.wf(),
                    plan.inv(*g),
                    t <= exts@.len(),
                    forall|x: int| 0 <= x < exts@.len() ==> plan.ext_ok(*g, #[trigger] exts@[x]),
                    trivial matches Some(e) ==> plan.ext_ok(*g, e),
                decreases exts@.len() - t,
            {
                let e = exts[t];
                assert(plan.ext_ok(*g, exts@[t as int]));
                if g.patterns[e.pattern_id].can_be_trivial() && e.step_cost.is_trivial() {
                    trivial = Some(e);
                }
                t = t + 1;
            }
            let chosen = match trivial {
                Some(e) => {
                    let mut c: Vec<StepExtension> = Vec::new();
                    c.push(e);
                    c
                },
                None => best_extensions(&exts, extension_width),
            };
            let ghost before = candidates@.len();
            let mut c: usize = 0;
            while c < chosen.len()
                invariant
                    g.wf(),
                    plan.inv(*g),
                    plan.remaining_count == num_patterns - i,
                    c <= chosen@.len(),
                    candidates@.len() == before + c,
                    forall|x: int| 0 <= x < chosen@.len() ==> plan.ext_ok(*g, #[trigger] chosen@[x]),
                    forall|x: int|
                        0 <= x < candidates@.len() ==> (#[trigger] candidates@[x]).inv(*g)
                            && candidates@[x].remaining_count + 1 == num_patterns - i,
                decreases chosen@.len() - c,
            {
                proof {
                    assert(plan.ext_ok(*g, chosen@[c as int]));
                }
                let next = plan.extend_with(g, chosen[c]);
                candidates.push(next);
                c = c + 1;
            }
            proof {
                if exts@.len() > 0 {
                    if trivial.is_none() {
                        assert forall|x: int| 0 <= x < chosen@.len() implies plan.ext_ok(*g, #[trigger] chosen@[x]) by {
                            assert(exts@.contains(chosen@[x]));
                            let j = choose|j: int| 0 <= j < exts@.len() && exts@[j] == chosen@[x];
                            assert(plan.ext_ok(*g, exts@[j]));
                        }
                    }
                }
            }
            b = b + 1;
        }
        if candidates.len() == 0 {
            proof {
                beam@[0].lemma_no_extension_is_stuck(*g);
            }
            return Err(QueryPlanningError::ExpectedPlannableConjunction);
        }
        let picked = select_beam(&candidates, beam_width, Ghost(*g));
        let mut next_beam: Vec<PartialCostPlan> = Vec::new();
        let mut k: usize = 0;
        while k < picked.len()
            invariant
                g.wf(),
                k <= picked@.len(),
                next_beam@.len() == k,
                forall|x: int| 0 <= x < picked@.len() ==> #[trigger] picked@[x] < candidates@.len(),
                forall|x: int|
                    0 <= x < candidates@.len() ==> (#[trigger] candidates@[x]).inv(*g)
                        && candidates@[x].remaining_count + 1 == num_patterns - i,
                forall|x: int|
                    0 <= x < next_beam@.len() ==> (#[trigger] next_beam@[x]).inv(*g)
                        && next_beam@[x].remaining_count + 1 == num_patterns - i,
            decreases picked@.len() - k,
        {
            let idx = picked[k];
            assert(candidates@[idx as int].inv(*g));
            next_beam.push(candidates[idx].duplicate(Ghost(*g)));
            k = k + 1;
        }
        beam = next_beam;
        i = i + 1;
    }
    // the finished plan of lowest cumulative cost
    let mut best = beam[0].duplicate(Ghost(*g)).into_complete_plan(g);
    proof {
        if num_patterns == 0 {
            lemma_noop_chain();
            assert(best.ord() == beam@[0].ord());
        }
    }
    proof {
        assert(best.cumulative_cost == finished_cost(beam@[0]));
    }
    let mut b: usize = 1;
    while b < beam.len()
        invariant
            g.wf(),
            1 <= b <= beam@.len(),
            best.complete(*g),
            num_patterns == g.num_patterns(),
            num_patterns == 0 ==> beam@.len() == 1,
            beam@.len() == 1 ==> b == 1,
            num_patterns == 0 ==> best.inputs_only(*g),
            forall|x: int|
                0 <= x < beam@.len() ==> (#[trigger] beam@[x]).inv(*g) && beam@[x].remaining_count
                    == 0,
            exists|k: int| 0 <= k < b && best.cumulative_cost == #[trigger] finished_cost(beam@[k]),
            forall|x: int| 0 <= x < b ==> best.cumulative_cost.cost <= (#[trigger] finished_cost(beam@[x])).cost,
        decreases beam@.len() - b,
    {
        let candidate = beam[b].duplicate(Ghost(*g)).into_complete_plan(g);
        proof {
            assert(candidate.cumulative_cost == finished_cost(beam@[b as int]));
        }
        if candidate.cumulative_cost.cost < best.cumulative_cost.cost {
            best = candidate;
        }
        b = b + 1;
    }
    proof {
        assert(final_beam(*g, beam@));
    }
    Ok(best)
}

/// The cost of running `plans` side by side, as the branches of a disjunction.
pub open spec fn parallel_cost(plans: Seq<CompletePlan>) -> Cost
    decreases plans.len(),
{
    if plans.len() == 0 {
        Cost { cost: 0, io_ratio: 0 }
    } else {
        crate::cost::combine_parallel_spec(parallel_cost(plans.drop_last()), plans.last().cumulative_cost)
    }
}

/// The plans of a disjunction's branches, each planned on its own.
pub struct DisjunctionPlan {
    pub branch_ids: Vec<u64>,
    pub branches: Vec<CompletePlan>,
    pub cost: Cost,
}

/// Plans every branch of a disjunction; fails if some branch cannot be planned.
pub fn plan_disjunction(branch_ids: Vec<u64>, graphs: &Vec<Graph>) -> (r: Result<
    DisjunctionPlan,
    QueryPlanningError,
>)
    requires
        branch_ids@.len() == graphs@.len(),
        forall|i: int| 0 <= i < graphs@.len() ==> (#[trigger] graphs@[i]).wf(),
    ensures
        r matches Ok(d) ==> {
            &&& d.branch_ids@ == branch_ids@
            &&& d.branches@.len() == graphs@.len()
            &&& forall|i: int| 0 <= i < graphs@.len() ==> (#[trigger] d.branches@[i]).complete(graphs@[i])
            &&& d.cost == parallel_cost(d.branches@)
        },
        r is Err ==> exists|i: int, remaining: Seq<bool>|
            0 <= i < graphs@.len() && #[trigger] stuck(graphs@[i], remaining),
{
    let mut branches: Vec<CompletePlan> = Vec::new();
    let mut cost = Cost { cost: 0, io_ratio: 0 };
    let mut i: usize = 0;
    while i < graphs.len()
        invariant
            i <= graphs@.len(),
            forall|x: int| 0 <= x < graphs@.len() ==> (#[trigger] graphs@[x]).wf(),
            branches@.len() == i,
            forall|x: int| 0 <= x < i ==> (#[trigger] branches@[x]).complete(graphs@[x]),
            cost == parallel_cost(branches@),
        decreases graphs@.len() - i,
    {
        match beam_search_plan(&graphs[i]) {
            Ok(plan) => {
                let ghost prev = branches@;
                cost = cost.combine_parallel(&plan.cumulative_cost);
                branches.push(plan);
                proof {
                    assert(branches@.drop_last() =~= prev);
                }
            },
            Err(e) => {
                proof {
                    let remaining = choose|remaining: Seq<bool>| stuck(graphs@[i as int], remaining);
                    assert(stuck(graphs@[i as int], remaining));
                }
                return Err(e);
            },
        }
        i = i + 1;
    }
    Ok(DisjunctionPlan { branch_ids, branches, cost })
}

/// Counts kept while planning, for reporting: the vertices seen and their expected sizes (in
/// fixed point), and the cost of the chosen plan.
#[derive(Clone, Copy, Debug, PartialEq, Eq, Structural)]
pub struct PlannerStatistics {
    pub links_count: Tally,
    pub has_count: Tally,
    pub var_count: Tally,
    pub query_cost: Cost,
}

/// How many vertices of a sort were seen, and their expected sizes added up.
#[derive(Clone, Copy, Debug, PartialEq, Eq, Structural)]
pub struct Tally {
    pub count: u64,
    pub size: u64,
}

pub open spec fn bump(c: Tally, size: u64) -> Tally {
    Tally { count: crate::cost::sat(c.count + 1), size: crate::cost::sat(c.size + size) }
}

fn bump_exec(c: Tally, size: u64) -> (r: Tally)
    ensures
        r == bump(c, size),
{
    Tally { count: c.count.saturating_add(1), size: c.size.saturating_add(size) }
}

impl PlannerStatistics {
    pub fn new() -> (r: PlannerStatistics)
        ensures
            r.links_count == (Tally { count: 0, size: 0 }),
            r.has_count == (Tally { count: 0, size: 0 }),
            r.var_count == (Tally { count: 0, size: 0 }),
            r.query_cost == Cost::noop(),
    {
        PlannerStatistics {
            links_count: Tally { count: 0, size: 0 },
            has_count: Tally { count: 0, size: 0 },
            var_count: Tally { count: 0, size: 0 },
            query_cost: Cost::new_noop(),
        }
    }

    /// Records a thing variable of `size` expected values.
    pub fn increment_var(&mut self, size: u64)
        ensures
            *final(self) == (PlannerStatistics { var_count: bump(old(self).var_count, size), ..*old(self) }),
    {
        self.var_count = bump_exec(self.var_count, size);
    }

    /// Records a `has` constraint over `size` expected keys.
    pub fn increment_has(&mut self, size: u64)
        ensures
            *final(self) == (PlannerStatistics { has_count: bump(old(self).has_count, size), ..*old(self) }),
    {
        self.has_count = bump_exec(self.has_count, size);
    }

    /// Records a `links` constraint over `size` expected keys.
    pub fn increment_links(&mut self, size: u64)
        ensures
            *final(self) == (PlannerStatistics { links_count: bump(old(self).links_count, size), ..*old(self) }),
    {
        self.links_count = bump_exec(self.links_count, size);
    }

    /// Records the cost of the chosen plan.
    pub fn finalize(&mut self, cost: Cost)
        ensures
            *final(self) == (PlannerStatistics { query_cost: cost, ..*old(self) }),
    {
        self.query_cost = cost;
    }
}

/// The number of thing variables among `vars`, and their expected sizes added up, each sum
/// saturating.
pub open spec fn thing_tally(vars: Seq<crate::graph::VariableVertex>) -> Tally
    decreases vars.len(),
{
    if vars.len() == 0 {
        Tally { count: 0, size: 0 }
    } else if vars.last().kind == crate::graph::VariableKind::Thing {
        bump(thing_tally(vars.drop_last()), vars.last().expected_size)
    } else {
        thing_tally(vars.drop_last())
    }
}

/// The `kind` constraints among the first `n` patterns, each sized by the expected size of its
/// right side.
pub open spec fn constraint_tally(g: Graph, n: int, kind: crate::graph::ConstraintKind) -> Tally
    decreases n,
{
    if n <= 0 {
        Tally { count: 0, size: 0 }
    } else {
        let prev = constraint_tally(g, n - 1, kind);
        let p = g.pattern(n - 1);
        if p.kind == crate::graph::PatternKind::Constraint(kind) && p.variables@.len() >= 2 {
            bump(prev, g.variables@[p.rhs() as int].expected_size)
        } else {
            prev
        }
    }
}

/// A planned conjunction with the statistics gathered while planning it.
pub struct ConjunctionPlan {
    pub plan: CompletePlan,
    pub planner_statistics: PlannerStatistics,
}

/// Plans the conjunction whose graph is `g`, recording its thing variables, its `has` and
/// `links` constraints, and the cost of the chosen plan.
pub fn plan_conjunction(g: &Graph) -> (r: Result<ConjunctionPlan, QueryPlanningError>)
    requires
        g.wf(),
    ensures
        r matches Ok(c) ==> c.plan.complete(*g) && c.planner_statistics.query_cost
            == c.plan.cumulative_cost && c.planner_statistics.var_count == thing_tally(g.variables@)
            && c.planner_statistics.has_count == constraint_tally(
            *g,
            g.num_patterns() as int,
            crate::graph::ConstraintKind::Has,
        ) && c.planner_statistics.links_count == constraint_tally(
            *g,
            g.num_patterns() as int,
            crate::graph::ConstraintKind::Links,
        ),
        r is Err ==> exists|remaining: Seq<bool>| stuck(*g, remaining),
{
    let mut statistics = PlannerStatistics::new();
    let mut v: usize = 0;
    while v < g.variables.len()
        invariant
            v <= g.variables@.len(),
            statistics.var_count == thing_tally(g.variables@.take(v as int)),
            statistics.has_count == (Tally { count: 0, size: 0 }),
            statistics.links_count == (Tally { count: 0, size: 0 }),
        decreases g.variables@.len() - v,
    {
        proof {
            assert(g.variables@.take(v + 1).drop_last() =~= g.variables@.take(v as int));
        }
        if g.variables[v].kind == crate::graph::VariableKind::Thing {
            statistics.increment_var(g.variables[v].expected_size);
        }
        v = v + 1;
    }
    proof {
        assert(g.variables@.take(v as int) =~= g.variables@);
    }
    let mut p: usize = 0;
    while p < g.patterns.len()
        invariant
            g.wf(),
            p <= g.patterns@.len(),
            statistics.var_count == thing_tally(g.variables@),
            statistics.has_count == constraint_tally(*g, p as int, crate::graph::ConstraintKind::Has),
            statistics.links_count == constraint_tally(*g, p as int, crate::graph::ConstraintKind::Links),
        decreases g.patterns@.len() - p,
    {
        let pv = &g.patterns[p];
        if pv.variables.len() >= 2 {
            proof {
                assert(pv.variables@[1] < g.num_vars());
            }
            let size = g.variables[pv.variables[1]].expected_size;
            match pv.kind {
                crate::graph::PatternKind::Constraint(crate::graph::ConstraintKind::Has) => {
                    statistics.increment_has(size);
                },
                crate::graph::PatternKind::Constraint(crate::graph::ConstraintKind::Links) => {
                    statistics.increment_links(size);
                },
                _ => {},
            }
        }
        p = p + 1;
    }
    let plan = beam_search_plan(g)?;
    statistics.finalize(plan.cumulative_cost);
    Ok(ConjunctionPlan { plan, planner_statistics: statistics })
}

} // verus!
