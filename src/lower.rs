//! Lowering a complete plan into executable steps, one per planned step.
//!
//! A step of constraints becomes an intersection over its sort variable; an expression, a
//! function call, a disjunction or a negation becomes a step of its own kind; any other pattern
//! becomes a check. Trivial checks stashed on a step stay with it.
use vstd::prelude::*;
use crate::graph::{Graph, PatternKind, CostMetaData, Direction, all_available};
use crate::plan::{CompletePlan, PlannedStep, step_in_range, in_range, step_joins, in_step, steps_disjoint};

verus! {

#[derive(Clone, Copy, Debug, PartialEq, Eq, Structural)]
pub enum StepKind {
    Intersection,
    Assignment,
    FunctionCall,
    Disjunction,
    Negation,
    Check,
}

/// The variables of a constraint that are bound when its instruction runs.
#[derive(Clone, Copy, Debug, PartialEq, Eq, Structural)]
pub enum Inputs {
    NoInputs,
    Single(usize),
    Dual(usize, usize),
}

/// A constraint as the executor runs it: its lookup direction and the bound variables it reads.
#[derive(Clone, Copy, Debug, PartialEq, Eq, Structural)]
pub struct ConstraintInstruction {
    pub pattern: usize,
    pub direction: Direction,
    pub inputs: Inputs,
}

/// An executable step: the patterns it runs with their instructions, the variable an
/// intersection sorts on, and the checks applied to its rows.
#[derive(Debug)]
pub struct ExecutableStep {
    pub kind: StepKind,
    pub sort_variable: Option<usize>,
    pub patterns: Vec<usize>,
    pub instructions: Vec<ConstraintInstruction>,
    pub checks: Vec<usize>,
}

pub open spec fn kind_of(k: PatternKind) -> StepKind {
    match k {
        PatternKind::Constraint(_) => StepKind::Intersection,
        PatternKind::Expression => StepKind::Assignment,
        PatternKind::FunctionCall => StepKind::FunctionCall,
        PatternKind::Disjunction => StepKind::Disjunction,
        PatternKind::Negation => StepKind::Negation,
        _ => StepKind::Check,
    }
}

pub open spec fn direction_of(m: CostMetaData) -> Direction {
    match m {
        CostMetaData::Direction(d) => d,
        CostMetaData::NoMetaData => Direction::Canonical,
    }
}

/// The instruction for pattern `p` when the variables in `bound` are bound: a binary constraint
/// reads its bound sides, and runs in its planned direction when neither is bound, in reverse
/// when its right side is, and canonically otherwise.
pub open spec fn instruction_of(g: Graph, meta: Seq<CostMetaData>, bound: Seq<bool>, p: usize) -> ConstraintInstruction {
    let pv = g.pattern(p as int);
    if pv.binary() {
        let l = bound[pv.lhs() as int];
        let r = bound[pv.rhs() as int];
        let inputs = if l && r {
            Inputs::Dual(pv.lhs(), pv.rhs())
        } else if l {
            Inputs::Single(pv.lhs())
        } else if r {
            Inputs::Single(pv.rhs())
        } else {
            Inputs::NoInputs
        };
        let direction = if !l && !r {
            direction_of(meta[p as int])
        } else if r {
            Direction::Reverse
        } else {
            Direction::Canonical
        };
        ConstraintInstruction { pattern: p, direction, inputs }
    } else if pv.variables@.len() >= 1 && bound[pv.variables@[0] as int] {
        ConstraintInstruction { pattern: p, direction: Direction::Canonical, inputs: Inputs::Single(pv.variables@[0]) }
    } else {
        ConstraintInstruction { pattern: p, direction: Direction::Canonical, inputs: Inputs::NoInputs }
    }
}

/// The variable an instruction produces first: under its direction, the first side not bound.
pub open spec fn first_produced(g: Graph, bound: Seq<bool>, i: ConstraintInstruction) -> Option<usize> {
    let pv = g.pattern(i.pattern as int);
    if pv.binary() {
        let (first, second) = match i.direction {
            Direction::Canonical => (pv.lhs(), pv.rhs()),
            Direction::Reverse => (pv.rhs(), pv.lhs()),
        };
        if !bound[first as int] {
            Some(first)
        } else if !bound[second as int] {
            Some(second)
        } else {
            None
        }
    } else if pv.variables@.len() >= 1 && !bound[pv.variables@[0] as int] {
        Some(pv.variables@[0])
    } else {
        None
    }
}

/// The variables bound before step `s` runs: the inputs, and every variable that a pattern of an
/// earlier step references.
pub open spec fn bound_before(g: Graph, steps: Seq<PlannedStep>, s: int) -> Seq<bool>
    decreases s,
{
    if s <= 0 {
        Seq::new(g.num_vars(), |v: int| g.is_input(v))
    } else {
        let prev = bound_before(g, steps, s - 1);
        Seq::new(g.num_vars(), |v: int| prev[v] || step_references(g, steps[s - 1], v))
    }
}

/// Some member or check of `st` references variable `v`.
pub open spec fn step_references(g: Graph, st: PlannedStep, v: int) -> bool {
    (exists|i: int| 0 <= i < st.members@.len() && #[trigger] g.edge(st.members@[i] as int, v))
        || (exists|i: int| 0 <= i < st.checks@.len() && #[trigger] g.edge(st.checks@[i] as int, v))
}

/// The kind of a planned step's first member, or a check for a step without members.
pub open spec fn member_kind(g: Graph, st: PlannedStep) -> StepKind {
    if st.members@.len() == 0 {
        StepKind::Check
    } else {
        kind_of(g.pattern(st.members@[0] as int).kind)
    }
}

/// Pattern `p` is a constraint whose variables are all bound: it only checks rows.
pub open spec fn bound_constraint(g: Graph, bound: Seq<bool>, p: usize) -> bool {
    g.pattern(p as int).is_constraint_spec() && all_available(g.pattern(p as int).variables@, bound)
}

/// The patterns of `m` that are not bound constraints, in order.
pub open spec fn runs_of(g: Graph, bound: Seq<bool>, m: Seq<usize>) -> Seq<usize>
    decreases m.len(),
{
    if m.len() == 0 {
        Seq::empty()
    } else if bound_constraint(g, bound, m.last()) {
        runs_of(g, bound, m.drop_last())
    } else {
        runs_of(g, bound, m.drop_last()).push(m.last())
    }
}

/// The patterns of `m` that are bound constraints, in order.
pub open spec fn bound_of(g: Graph, bound: Seq<bool>, m: Seq<usize>) -> Seq<usize>
    decreases m.len(),
{
    if m.len() == 0 {
        Seq::empty()
    } else if bound_constraint(g, bound, m.last()) {
        bound_of(g, bound, m.drop_last()).push(m.last())
    } else {
        bound_of(g, bound, m.drop_last())
    }
}

proof fn lemma_runs_within(g: Graph, bound: Seq<bool>, m: Seq<usize>)
    ensures
        runs_of(g, bound, m).len() <= m.len(),
        forall|i: int| 0 <= i < runs_of(g, bound, m).len() ==> m.contains(#[trigger] runs_of(g, bound, m)[i]),
    decreases m.len(),
{
    if m.len() > 0 {
        lemma_runs_within(g, bound, m.drop_last());
        let prev = runs_of(g, bound, m.drop_last());
        assert forall|i: int| 0 <= i < runs_of(g, bound, m).len() implies m.contains(#[trigger] runs_of(g, bound, m)[i]) by {
            if i < prev.len() {
                assert(runs_of(g, bound, m)[i] == prev[i]);
                assert(m.drop_last().contains(prev[i]));
                let k = choose|k: int| 0 <= k < m.drop_last().len() && m.drop_last()[k] == prev[i];
                assert(m[k] == prev[i]);
            } else {
                assert(runs_of(g, bound, m)[i] == m.last());
                assert(m[m.len() - 1] == m.last());
            }
        }
    }
}

/// The kind of step a planned step lowers to: that of its first member, except that a step of
/// constraints all bound before it runs is a check.
pub open spec fn step_kind(g: Graph, bound: Seq<bool>, st: PlannedStep) -> StepKind {
    let k = member_kind(g, st);
    if k == StepKind::Intersection && runs_of(g, bound, st.members@).len() == 0 {
        StepKind::Check
    } else {
        k
    }
}

/// The variable an intersection sorts on: the step's join variable or, for a lone member, the
/// first variable its instruction produces.
pub open spec fn sort_variable_of(g: Graph, meta: Seq<CostMetaData>, bound: Seq<bool>, st: PlannedStep) -> Option<usize> {
    if step_kind(g, bound, st) != StepKind::Intersection {
        None
    } else if st.join_var.is_some() {
        st.join_var
    } else {
        first_produced(g, bound, instruction_of(g, meta, bound, runs_of(g, bound, st.members@)[0]))
    }
}

/// The patterns a lowered step runs: the members of an intersection that are not bound
/// constraints, the first member of any other kind, none for a check.
pub open spec fn run_patterns(g: Graph, bound: Seq<bool>, st: PlannedStep) -> Seq<usize> {
    match step_kind(g, bound, st) {
        StepKind::Intersection => runs_of(g, bound, st.members@),
        StepKind::Check => Seq::empty(),
        _ => st.members@.take(1),
    }
}

/// The checks of a lowered step: the members it does not run, then the stash. A constraint
/// whose variables are all bound before its step is a check.
pub open spec fn check_patterns(g: Graph, bound: Seq<bool>, st: PlannedStep) -> Seq<usize> {
    match step_kind(g, bound, st) {
        StepKind::Intersection => bound_of(g, bound, st.members@) + st.checks@,
        StepKind::Check => st.members@ + st.checks@,
        _ => st.members@.skip(1) + st.checks@,
    }
}

/// `e` is the lowering of planned step `st`, run once the variables in `bound` are bound.
pub open spec fn lowers(g: Graph, meta: Seq<CostMetaData>, bound: Seq<bool>, st: PlannedStep, e: ExecutableStep) -> bool {
    &&& e.kind == step_kind(g, bound, st)
    &&& e.sort_variable == sort_variable_of(g, meta, bound, st)
    &&& e.patterns@ == run_patterns(g, bound, st)
    &&& e.instructions@.len() == e.patterns@.len()
    &&& forall|i: int|
        0 <= i < e.patterns@.len() ==> e.instructions@[i] == instruction_of(
            g,
            meta,
            bound,
            #[trigger] e.patterns@[i],
        )
    &&& e.checks@ == check_patterns(g, bound, st)
}

fn copy_ids(v: &Vec<usize>, from: usize) -> (r: Vec<usize>)
    requires
        from <= v@.len(),
    ensures
        r@ == v@.skip(from as int),
{
    let mut r: Vec<usize> = Vec::new();
    let mut i: usize = from;
    while i < v.len()
        invariant
            from <= i <= v@.len(),
            r@ == v@.subrange(from as int, i as int),
        decreases v@.len() - i,
    {
        r.push(v[i]);
        proof {
            assert(r@ =~= v@.subrange(from as int, i + 1));
        }
        i = i + 1;
    }
    proof {
        assert(v@.skip(from as int) =~= v@.subrange(from as int, i as int));
    }
    r
}

fn step_kind_exec(g: &Graph, st: &PlannedStep) -> (r: StepKind)
    requires
        step_in_range(*g, *st),
    ensures
        r == member_kind(*g, *st),
{
    if st.members.len() == 0 {
        return StepKind::Check;
    }
    match g.patterns[st.members[0]].kind {
        PatternKind::Constraint(_) => StepKind::Intersection,
        PatternKind::Expression => StepKind::Assignment,
        PatternKind::FunctionCall => StepKind::FunctionCall,
        PatternKind::Disjunction => StepKind::Disjunction,
        PatternKind::Negation => StepKind::Negation,
        _ => StepKind::Check,
    }
}

fn direction_exec(m: CostMetaData) -> (r: Direction)
    ensures
        r == direction_of(m),
{
    match m {
        CostMetaData::Direction(d) => d,
        CostMetaData::NoMetaData => Direction::Canonical,
    }
}

fn instruction_exec(g: &Graph, meta: &Vec<CostMetaData>, bound: &Vec<bool>, p: usize) -> (r:
    ConstraintInstruction)
    requires
        g.wf(),
        p < g.num_patterns(),
        meta@.len() == g.num_patterns(),
        bound@.len() == g.num_vars(),
    ensures
        r == instruction_of(*g, meta@, bound@, p),
{
    let pv = &g.patterns[p];
    proof {
        assert(forall|i: int| 0 <= i < pv.variables@.len() ==> pv.variables@[i] < g.num_vars());
    }
    if pv.is_binary() {
        let lhs = pv.variables[0];
        let rhs = pv.variables[1];
        let l = bound[lhs];
        let r = bound[rhs];
        let inputs = if l && r {
            Inputs::Dual(lhs, rhs)
        } else if l {
            Inputs::Single(lhs)
        } else if r {
            Inputs::Single(rhs)
        } else {
            Inputs::NoInputs
        };
        let direction = if !l && !r {
            direction_exec(meta[p])
        } else if r {
            Direction::Reverse
        } else {
            Direction::Canonical
        };
        ConstraintInstruction { pattern: p, direction, inputs }
    } else if pv.variables.len() >= 1 && bound[pv.variables[0]] {
        ConstraintInstruction { pattern: p, direction: Direction::Canonical, inputs: Inputs::Single(pv.variables[0]) }
    } else {
        ConstraintInstruction { pattern: p, direction: Direction::Canonical, inputs: Inputs::NoInputs }
    }
}

fn first_produced_exec(g: &Graph, bound: &Vec<bool>, i: ConstraintInstruction) -> (r: Option<usize>)
    requires
        g.wf(),
        i.pattern < g.num_patterns(),
        bound@.len() == g.num_vars(),
    ensures
        r == first_produced(*g, bound@, i),
{
    let pv = &g.patterns[i.pattern];
    proof {
        assert(forall|k: int| 0 <= k < pv.variables@.len() ==> pv.variables@[k] < g.num_vars());
    }
    if pv.is_binary() {
        let (first, second) = match i.direction {
            Direction::Canonical => (pv.variables[0], pv.variables[1]),
            Direction::Reverse => (pv.variables[1], pv.variables[0]),
        };
        if !bound[first] {
            Some(first)
        } else if !bound[second] {
            Some(second)
        } else {
            None
        }
    } else if pv.variables.len() >= 1 && !bound[pv.variables[0]] {
        Some(pv.variables[0])
    } else {
        None
    }
}

/// Lowers one planned step, run once the variables in `bound` are bound.
pub fn lower_step(g: &Graph, plan: &CompletePlan, s: usize, bound: &Vec<bool>) -> (r: ExecutableStep)
    requires
        g.wf(),
        plan.complete(*g),
        s < plan.steps@.len(),
        bound@.len() == g.num_vars(),
    ensures
        lowers(*g, plan.pattern_metadata@, bound@, plan.steps@[s as int], r),
{
    let st = &plan.steps[s];
    assert(step_in_range(*g, *st));
    let mk = step_kind_exec(g, st);
    let mut runs: Vec<usize> = Vec::new();
    let mut bounded: Vec<usize> = Vec::new();
    if mk == StepKind::Intersection {
        let mut i: usize = 0;
        while i < st.members.len()
            invariant
                g.wf(),
                step_in_range(*g, *st),
                bound@.len() == g.num_vars(),
                i <= st.members@.len(),
                runs@ == runs_of(*g, bound@, st.members@.take(i as int)),
                bounded@ == bound_of(*g, bound@, st.members@.take(i as int)),
            decreases st.members@.len() - i,
        {
            let q = st.members[i];
            let pv = &g.patterns[q];
            proof {
                assert(st.members@.take(i + 1).drop_last() =~= st.members@.take(i as int));
                assert(st.members@.take(i + 1).last() == q);
                assert(forall|k: int| 0 <= k < pv.variables@.len() ==> pv.variables@[k] < bound@.len());
            }
            if pv.is_constraint() && pv.all_bound(bound) {
                bounded.push(q);
            } else {
                runs.push(q);
            }
            i = i + 1;
        }
        proof {
            assert(st.members@.take(i as int) =~= st.members@);
        }
    }
    let kind = if mk == StepKind::Intersection && runs.len() == 0 {
        StepKind::Check
    } else {
        mk
    };
    let patterns = match kind {
        StepKind::Intersection => runs,
        StepKind::Check => Vec::new(),
        _ => {
            let mut v: Vec<usize> = Vec::new();
            v.push(st.members[0]);
            v
        },
    };
    proof {
        lemma_runs_within(*g, bound@, st.members@);
        if kind != StepKind::Intersection && kind != StepKind::Check {
            assert(patterns@ =~= st.members@.take(1));
        }
        if kind == StepKind::Check {
            assert(patterns@ =~= Seq::<usize>::empty());
        }
        if kind == StepKind::Intersection {
            assert forall|k: int| 0 <= k < patterns@.len() implies patterns@[k] < g.num_patterns() by {
                assert(st.members@.contains(patterns@[k]));
            }
        }
    }
    let mut instructions: Vec<ConstraintInstruction> = Vec::new();
    let mut i: usize = 0;
    while i < patterns.len()
        invariant
            g.wf(),
            plan.complete(*g),
            bound@.len() == g.num_vars(),
            in_range(patterns@, g.num_patterns()),
            i <= patterns@.len(),
            instructions@.len() == i,
            forall|m: int|
                0 <= m < i ==> instructions@[m] == instruction_of(
                    *g,
                    plan.pattern_metadata@,
                    bound@,
                    #[trigger] patterns@[m],
                ),
        decreases patterns@.len() - i,
    {
        instructions.push(instruction_exec(g, &plan.pattern_metadata, bound, patterns[i]));
        i = i + 1;
    }
    let sort_variable = if kind != StepKind::Intersection {
        None
    } else if st.join_var.is_some() {
        st.join_var
    } else {
        let first = instruction_exec(g, &plan.pattern_metadata, bound, patterns[0]);
        first_produced_exec(g, bound, first)
    };
    let mut checks = match kind {
        StepKind::Intersection => bounded,
        StepKind::Check => copy_ids(&st.members, 0),
        _ => copy_ids(&st.members, 1),
    };
    let ghost before = checks@;
    let mut stash = copy_ids(&st.checks, 0);
    checks.append(&mut stash);
    proof {
        assert(st.checks@.skip(0) =~= st.checks@);
        assert(st.members@.skip(0) =~= st.members@);
    }
    ExecutableStep { kind, sort_variable, patterns, instructions, checks }
}

/// `bound` with every variable that pattern `p` references set.
fn bind_pattern_vars(g: &Graph, bound: &mut Vec<bool>, p: usize)
    requires
        g.wf(),
        p < g.num_patterns(),
        old(bound)@.len() == g.num_vars(),
    ensures
        final(bound)@.len() == g.num_vars(),
        forall|v: int|
            0 <= v < g.num_vars() ==> (final(bound)@[v] <==> (old(bound)@[v] || g.edge(p as int, v))),
{
    let pv = &g.patterns[p];
    let mut k: usize = 0;
    while k < pv.variables.len()
        invariant
            g.wf(),
            p < g.num_patterns(),
            *pv == g.patterns@[p as int],
            k <= pv.variables@.len(),
            bound@.len() == g.num_vars(),
            forall|v: int|
                0 <= v < g.num_vars() ==> (bound@[v] <==> (old(bound)@[v] || exists|m: int|
                    0 <= m < k && pv.variables@[m] == v as usize)),
        decreases pv.variables@.len() - k,
    {
        let w = pv.variables[k];
        assert(w < g.num_vars());
        bound.set(w, true);
        proof {
            assert forall|v: int|
                0 <= v < g.num_vars() implies (bound@[v] <==> (old(bound)@[v] || exists|m: int|
                    0 <= m < k + 1 && pv.variables@[m] == v as usize)) by {
                if v == w as int {
                    assert(pv.variables@[k as int] == v as usize);
                } else if exists|m: int| 0 <= m < k + 1 && pv.variables@[m] == v as usize {
                    let m = choose|m: int| 0 <= m < k + 1 && pv.variables@[m] == v as usize;
                    assert(m != k);
                }
            }
        }
        k = k + 1;
    }
    proof {
        assert forall|v: int|
            0 <= v < g.num_vars() implies (bound@[v] <==> (old(bound)@[v] || g.edge(p as int, v))) by {
            if g.edge(p as int, v) {
                let m = choose|m: int| 0 <= m < pv.variables@.len() && pv.variables@[m] == v as usize;
            }
        }
    }
}

/// `bound` with every variable that some pattern of `pats` references set.
fn bind_all_vars(g: &Graph, bound: &mut Vec<bool>, pats: &Vec<usize>)
    requires
        g.wf(),
        in_range(pats@, g.num_patterns()),
        old(bound)@.len() == g.num_vars(),
    ensures
        final(bound)@.len() == g.num_vars(),
        forall|x: int|
            0 <= x < g.num_vars() ==> (#[trigger] final(bound)@[x] <==> (old(bound)@[x] || exists|m: int|
                0 <= m < pats@.len() && #[trigger] g.edge(pats@[m] as int, x))),
{
    let ghost prev = bound@;
    let mut i: usize = 0;
    while i < pats.len()
        invariant
            g.wf(),
            in_range(pats@, g.num_patterns()),
            i <= pats@.len(),
            bound@.len() == g.num_vars(),
            prev == old(bound)@,
            forall|x: int|
                0 <= x < g.num_vars() ==> (#[trigger] bound@[x] <==> (prev[x] || exists|m: int|
                    0 <= m < i && #[trigger] g.edge(pats@[m] as int, x))),
        decreases pats@.len() - i,
    {
        let ghost b0 = bound@;
        bind_pattern_vars(g, bound, pats[i]);
        proof {
            assert forall|x: int|
                0 <= x < g.num_vars() implies (#[trigger] bound@[x] <==> (prev[x] || exists|m: int|
                    0 <= m < i + 1 && #[trigger] g.edge(pats@[m] as int, x))) by {
                if g.edge(pats@[i as int] as int, x) {
                    assert(0 <= i < i + 1 && g.edge(pats@[i as int] as int, x));
                }
                if exists|m: int| 0 <= m < i + 1 && #[trigger] g.edge(pats@[m] as int, x) {
                    let m = choose|m: int| 0 <= m < i + 1 && #[trigger] g.edge(pats@[m] as int, x);
                    if m < i {
                        assert(0 <= m < i && g.edge(pats@[m] as int, x));
                        assert(b0[x]);
                    }
                }
                if b0[x] && !prev[x] {
                    let m = choose|m: int| 0 <= m < i && #[trigger] g.edge(pats@[m] as int, x);
                    assert(0 <= m < i + 1);
                }
            }
        }
        i = i + 1;
    }
}

/// Lowers a complete plan into its executable steps, one per planned step and in order, each
/// run once the inputs and the variables of all earlier steps are bound. An intersection with
/// two or more instructions sorts on a variable that each of them references. The result is a
/// function of the plan alone, so lowering a plan again gives the same steps.
#[verifier::rlimit(40)]
pub fn lower(g: &Graph, plan: &CompletePlan) -> (r: Vec<ExecutableStep>)
    requires
        g.wf(),
        plan.complete(*g),
    ensures
        r@.len() == plan.steps@.len(),
        forall|s: int|
            0 <= s < r@.len() ==> lowers(
                *g,
                plan.pattern_metadata@,
                bound_before(*g, plan.steps@, s),
                plan.steps@[s],
                #[trigger] r@[s],
            ),
        forall|s: int|
            0 <= s < r@.len() && (#[trigger] r@[s]).kind == StepKind::Intersection
                && r@[s].patterns@.len() >= 2 ==> (r@[s].sort_variable matches Some(v) && forall|m: int|
                0 <= m < r@[s].patterns@.len() ==> #[trigger] g.edge(r@[s].patterns@[m] as int, v as int)),
        forall|s1: int, s2: int, i: int, j: int|
            0 <= s1 < r@.len() && 0 <= s2 < r@.len() && 0 <= i < r@[s1].patterns@.len() && 0 <= j
                < r@[s2].patterns@.len() && #[trigger] r@[s1].patterns@[i] == #[trigger] r@[s2].patterns@[j]
                ==> s1 == s2,
{
    let nv = g.variables.len();
    let mut bound: Vec<bool> = Vec::new();
    let mut v: usize = 0;
    while v < nv
        invariant
            nv == g.num_vars(),
            v <= nv,
            bound@ == Seq::new(g.num_vars(), |x: int| g.is_input(x)).take(v as int),
        decreases nv - v,
    {
        bound.push(g.variables[v].kind == crate::graph::VariableKind::Input);
        proof {
            assert(bound@ =~= Seq::new(g.num_vars(), |x: int| g.is_input(x)).take(v + 1));
        }
        v = v + 1;
    }
    proof {
        assert(bound@ =~= bound_before(*g, plan.steps@, 0));
    }
    let mut r: Vec<ExecutableStep> = Vec::new();
    let mut s: usize = 0;
    while s < plan.steps.len()
        invariant
            g.wf(),
            plan.complete(*g),
            s <= plan.steps@.len(),
            r@.len() == s,
            bound@ == bound_before(*g, plan.steps@, s as int),
            forall|x: int|
                0 <= x < s ==> lowers(
                    *g,
                    plan.pattern_metadata@,
                    bound_before(*g, plan.steps@, x),
                    plan.steps@[x],
                    #[trigger] r@[x],
                ),
        decreases plan.steps@.len() - s,
    {
        r.push(lower_step(g, plan, s, &bound));
        let st = &plan.steps[s];
        assert(step_in_range(*g, *st));
        let ghost prev = bound@;
        bind_all_vars(g, &mut bound, &st.members);
        let ghost mid = bound@;
        bind_all_vars(g, &mut bound, &st.checks);
        proof {
            let next = bound_before(*g, plan.steps@, s + 1);
            assert(prev == bound_before(*g, plan.steps@, s as int));
            assert forall|x: int| 0 <= x < g.num_vars() implies bound@[x] == next[x] by {
                assert(next[x] == (prev[x] || step_references(*g, plan.steps@[s as int], x)));
                assert(mid[x] <==> (prev[x] || exists|m: int|
                    0 <= m < st.members@.len() && #[trigger] g.edge(st.members@[m] as int, x)));
                assert(bound@[x] <==> (mid[x] || exists|m: int|
                    0 <= m < st.checks@.len() && #[trigger] g.edge(st.checks@[m] as int, x)));
            }
            assert(bound@ =~= next);
        }
        s = s + 1;
    }
    proof {
        assert forall|x: int|
            0 <= x < r@.len() && (#[trigger] r@[x]).kind == StepKind::Intersection
                && r@[x].patterns@.len() >= 2 implies (r@[x].sort_variable matches Some(v) && forall|m: int|
                0 <= m < r@[x].patterns@.len() ==> #[trigger] g.edge(r@[x].patterns@[m] as int, v as int)) by {
            let st = plan.steps@[x];
            let bb = bound_before(*g, plan.steps@, x);
            assert(plan.steps@[x] == st);
            assert(lowers(*g, plan.pattern_metadata@, bb, st, r@[x]));
            assert(step_joins(*g, st.members@, st.join_var));
            lemma_runs_within(*g, bb, st.members@);
            assert(r@[x].patterns@ == runs_of(*g, bb, st.members@));
            let v = st.join_var->Some_0;
            assert forall|m: int| 0 <= m < r@[x].patterns@.len() implies #[trigger] g.edge(
                r@[x].patterns@[m] as int,
                v as int,
            ) by {
                assert(st.members@.contains(r@[x].patterns@[m]));
                let k = choose|k: int| 0 <= k < st.members@.len() && st.members@[k] == r@[x].patterns@[m];
                assert(g.edge(st.members@[k] as int, v as int));
            }
        }
        assert forall|x: int, i: int|
            0 <= x < r@.len() && 0 <= i < r@[x].patterns@.len() implies in_step(
            plan.steps@[x],
            #[trigger] r@[x].patterns@[i],
        ) by {
            let st = plan.steps@[x];
            let bb = bound_before(*g, plan.steps@, x);
            assert(lowers(*g, plan.pattern_metadata@, bb, st, r@[x]));
            lemma_runs_within(*g, bb, st.members@);
            if step_kind(*g, bb, st) == StepKind::Intersection {
                assert(st.members@.contains(r@[x].patterns@[i]));
            } else {
                assert(r@[x].patterns@[i] == st.members@[i]);
            }
        }
        assert forall|s1: int, s2: int, i: int, j: int|
            0 <= s1 < r@.len() && 0 <= s2 < r@.len() && 0 <= i < r@[s1].patterns@.len() && 0 <= j
                < r@[s2].patterns@.len() && #[trigger] r@[s1].patterns@[i] == #[trigger] r@[s2].patterns@[j]
                implies s1 == s2 by {
            let q = r@[s1].patterns@[i];
            assert(in_step(plan.steps@[s1], q));
            assert(in_step(plan.steps@[s2], r@[s2].patterns@[j]));
            assert(steps_disjoint(plan.steps@));
        }
    }
    r
}

/// `steps` are the lowering of `plan`, step by step.
pub open spec fn lowered(g: Graph, plan: CompletePlan, steps: Seq<ExecutableStep>) -> bool {
    &&& steps.len() == plan.steps@.len()
    &&& forall|s: int|
        0 <= s < steps.len() ==> lowers(
            g,
            plan.pattern_metadata@,
            bound_before(g, plan.steps@, s),
            plan.steps@[s],
            #[trigger] steps[s],
        )
}

/// Lowers each branch of a disjunction plan on its own, in branch order.
pub fn lower_disjunction(graphs: &Vec<Graph>, plan: &crate::plan::DisjunctionPlan) -> (r: Vec<
    Vec<ExecutableStep>,
>)
    requires
        plan.branches@.len() == graphs@.len(),
        forall|i: int|
            0 <= i < graphs@.len() ==> (#[trigger] graphs@[i]).wf() && plan.branches@[i].complete(
                graphs@[i],
            ),
    ensures
        r@.len() == graphs@.len(),
        forall|i: int| 0 <= i < r@.len() ==> lowered(graphs@[i], plan.branches@[i], #[trigger] r@[i]@),
{
    let mut r: Vec<Vec<ExecutableStep>> = Vec::new();
    let mut i: usize = 0;
    while i < graphs.len()
        invariant
            plan.branches@.len() == graphs@.len(),
            forall|x: int|
                0 <= x < graphs@.len() ==> (#[trigger] graphs@[x]).wf() && plan.branches@[x].complete(
                    graphs@[x],
                ),
            i <= graphs@.len(),
            r@.len() == i,
            forall|x: int| 0 <= x < i ==> lowered(graphs@[x], plan.branches@[x], #[trigger] r@[x]@),
        decreases graphs@.len() - i,
    {
        assert(graphs@[i as int].wf() && plan.branches@[i as int].complete(graphs@[i as int]));
        let steps = lower(&graphs[i], &plan.branches[i]);
        proof {
            assert(lowered(graphs@[i as int], plan.branches@[i as int], steps@));
        }
        let ghost prev = r@;
        r.push(steps);
        proof {
            assert forall|x: int| 0 <= x < i + 1 implies lowered(graphs@[x], plan.branches@[x], #[trigger] r@[x]@) by {
                if x < i {
                    assert(r@[x] == prev[x]);
                }
            }
        }
        i = i + 1;
    }
    r
}

/// Lowering is stable: two lowerings of the same plan hold the same steps, with the same kinds,
/// sort variables, instructions and checks.
pub proof fn lemma_relowering_is_stable(
    g: Graph,
    plan: CompletePlan,
    a: Seq<ExecutableStep>,
    b: Seq<ExecutableStep>,
)
    requires
        a.len() == plan.steps@.len(),
        b.len() == plan.steps@.len(),
        forall|s: int|
            0 <= s < a.len() ==> lowers(
                g,
                plan.pattern_metadata@,
                bound_before(g, plan.steps@, s),
                plan.steps@[s],
                #[trigger] a[s],
            ),
        forall|s: int|
            0 <= s < b.len() ==> lowers(
                g,
                plan.pattern_metadata@,
                bound_before(g, plan.steps@, s),
                plan.steps@[s],
                #[trigger] b[s],
            ),
    ensures
        forall|s: int|
            0 <= s < a.len() ==> (#[trigger] a[s]).kind == b[s].kind && a[s].sort_variable
                == b[s].sort_variable && a[s].patterns@ == b[s].patterns@ && a[s].instructions@
                == b[s].instructions@ && a[s].checks@ == b[s].checks@,
{
    assert forall|s: int| 0 <= s < a.len() implies (#[trigger] a[s]).kind == b[s].kind
        && a[s].sort_variable == b[s].sort_variable && a[s].patterns@ == b[s].patterns@
        && a[s].instructions@ == b[s].instructions@ && a[s].checks@ == b[s].checks@ by {
        let bound = bound_before(g, plan.steps@, s);
        assert(lowers(g, plan.pattern_metadata@, bound, plan.steps@[s], a[s]));
        assert(lowers(g, plan.pattern_metadata@, bound, plan.steps@[s], b[s]));
        assert forall|i: int| 0 <= i < a[s].instructions@.len() implies a[s].instructions@[i]
            == b[s].instructions@[i] by {
            assert(a[s].patterns@[i] == b[s].patterns@[i]);
        }
        assert(a[s].instructions@ =~= b[s].instructions@);
    }
}

} // verus!
