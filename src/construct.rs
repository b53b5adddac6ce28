//! Building the pattern graph of a conjunction: its variables by category, then one
//! pattern-vertex per constraint, with comparison bounds, `is` links and bindings recorded on
//! the variables involved.
use vstd::prelude::*;
use crate::cost::{Cost, SCALE};
use crate::graph::{
    ComparisonInput, ConstraintKind, Graph, PatternKind, PatternVertex, VariableBounds, VariableKind,
    VariableVertex,
};
use crate::plan::{QueryPlanningError, CompletePlan, beam_search_plan, stuck};

verus! {

#[derive(Clone, Copy, Debug, PartialEq, Eq, Structural)]
pub enum VariableCategory {
    Type,
    ThingType,
    AttributeType,
    RoleType,
    Thing,
    Object,
    Attribute,
    Value,
    ObjectList,
    ThingList,
    AttributeList,
    ValueList,
    /// Not yet resolved to an attribute or a value.
    AttributeOrValue,
}

#[derive(Clone, Copy, Debug, PartialEq, Eq, Structural)]
pub enum Comparator {
    Equal,
    NotEqual,
    Less,
    LessOrEqual,
    Greater,
    GreaterOrEqual,
    Like,
    Contains,
}

/// The kind of vertex a category plans as; lists have none.
pub open spec fn kind_of_category(c: VariableCategory) -> Option<VariableKind> {
    match c {
        VariableCategory::Type | VariableCategory::ThingType | VariableCategory::AttributeType
        | VariableCategory::RoleType => Some(VariableKind::Type),
        VariableCategory::Thing | VariableCategory::Object | VariableCategory::Attribute => Some(
            VariableKind::Thing,
        ),
        VariableCategory::Value => Some(VariableKind::Value),
        _ => None,
    }
}

/// Registers a variable bound within the conjunction. List categories are rejected.
pub fn register_variable(g: &mut Graph, category: VariableCategory, expected_size: u64) -> (r: Result<
    usize,
    QueryPlanningError,
>)
    requires
        old(g).wf(),
        old(g).num_vars() + 1 < usize::MAX,
        category != VariableCategory::AttributeOrValue,
    ensures
        final(g).wf(),
        final(g).patterns@ == old(g).patterns@,
        match kind_of_category(category) {
            Some(k) => r == Ok::<usize, QueryPlanningError>(old(g).num_vars() as usize)
                && final(g).variables@ == old(g).variables@.push(
                VariableVertex { kind: k, expected_size },
            ),
            None => r == Err::<usize, QueryPlanningError>(QueryPlanningError::UnimplementedLists)
                && final(g).variables@ == old(g).variables@ && final(g).bounds@ == old(g).bounds@,
        },
{
    let kind = match category {
        VariableCategory::Type | VariableCategory::ThingType | VariableCategory::AttributeType
        | VariableCategory::RoleType => VariableKind::Type,
        VariableCategory::Thing | VariableCategory::Object | VariableCategory::Attribute => VariableKind::Thing,
        VariableCategory::Value => VariableKind::Value,
        _ => {
            return Err(QueryPlanningError::UnimplementedLists);
        },
    };
    Ok(g.push_variable(VariableVertex { kind, expected_size }))
}

/// Registers a variable bound before the conjunction runs.
pub fn register_input(g: &mut Graph, expected_size: u64) -> (r: usize)
    requires
        old(g).wf(),
        old(g).num_vars() + 1 < usize::MAX,
    ensures
        final(g).wf(),
        r == old(g).num_vars(),
        final(g).variables@ == old(g).variables@.push(
            VariableVertex { kind: VariableKind::Input, expected_size },
        ),
        final(g).patterns@ == old(g).patterns@,
{
    g.push_variable(VariableVertex { kind: VariableKind::Input, expected_size })
}

/// Which bounds a comparison adds to each variable it compares: `Equal` an equality, `Less` and
/// `LessOrEqual` an upper bound, `Greater` and `GreaterOrEqual` a lower bound; the rest none, as
/// they do not bear on the order of iteration.
pub open spec fn imprint(
    b: (Seq<ComparisonInput>, Seq<ComparisonInput>, Seq<ComparisonInput>),
    cmp: Comparator,
    other: ComparisonInput,
) -> (Seq<ComparisonInput>, Seq<ComparisonInput>, Seq<ComparisonInput>) {
    match cmp {
        Comparator::Equal => (b.0.push(other), b.1, b.2),
        Comparator::Less | Comparator::LessOrEqual => (b.0, b.1.push(other), b.2),
        Comparator::Greater | Comparator::GreaterOrEqual => (b.0, b.1, b.2.push(other)),
        _ => b,
    }
}

pub open spec fn bounds_view(b: VariableBounds) -> (
    Seq<ComparisonInput>,
    Seq<ComparisonInput>,
    Seq<ComparisonInput>,
) {
    (b.equal@, b.upper@, b.lower@)
}

/// The comparator seen from the other side: `a < b` is `b > a`.
pub open spec fn mirror(cmp: Comparator) -> Comparator {
    match cmp {
        Comparator::Less => Comparator::Greater,
        Comparator::LessOrEqual => Comparator::GreaterOrEqual,
        Comparator::Greater => Comparator::Less,
        Comparator::GreaterOrEqual => Comparator::LessOrEqual,
        _ => cmp,
    }
}

fn mirror_exec(cmp: Comparator) -> (r: Comparator)
    ensures
        r == mirror(cmp),
{
    match cmp {
        Comparator::Less => Comparator::Greater,
        Comparator::LessOrEqual => Comparator::GreaterOrEqual,
        Comparator::Greater => Comparator::Less,
        Comparator::GreaterOrEqual => Comparator::LessOrEqual,
        _ => cmp,
    }
}

/// The bounds of variable `x` after the comparison side `side` against `other` is imprinted.
pub open spec fn side_imprint(
    b: (Seq<ComparisonInput>, Seq<ComparisonInput>, Seq<ComparisonInput>),
    side: ComparisonInput,
    x: int,
    cmp: Comparator,
    other: ComparisonInput,
) -> (Seq<ComparisonInput>, Seq<ComparisonInput>, Seq<ComparisonInput>) {
    if side == ComparisonInput::Variable(x as usize) {
        imprint(b, cmp, other)
    } else {
        b
    }
}

pub open spec fn input_in_range(g: Graph, i: ComparisonInput) -> bool {
    match i {
        ComparisonInput::Variable(v) => v < g.num_vars(),
        ComparisonInput::Fixed => true,
    }
}

fn imprint_exec(g: &mut Graph, side: ComparisonInput, cmp: Comparator, other: ComparisonInput)
    requires
        old(g).wf(),
        input_in_range(*old(g), side),
    ensures
        final(g).wf(),
        final(g).variables@ == old(g).variables@,
        final(g).patterns@ == old(g).patterns@,
        forall|x: int|
            0 <= x < old(g).num_vars() ==> bounds_view(#[trigger] final(g).bounds@[x]) == side_imprint(
                bounds_view(old(g).bounds@[x]),
                side,
                x,
                cmp,
                other,
            ) && final(g).bounds@[x].is@ == old(g).bounds@[x].is@ && final(g).bounds@[x].binding
                == old(g).bounds@[x].binding,
{
    if let ComparisonInput::Variable(v) = side {
        let mut b = g.take_bounds(v);
        match cmp {
            Comparator::Equal => b.equal.push(other),
            Comparator::Less | Comparator::LessOrEqual => b.upper.push(other),
            Comparator::Greater | Comparator::GreaterOrEqual => b.lower.push(other),
            _ => {},
        }
        g.set_bounds(v, b);
    }
}

/// The variable sides of a comparison, left first.
pub open spec fn side_seq(lhs: ComparisonInput, rhs: ComparisonInput) -> Seq<usize> {
    let l = match lhs {
        ComparisonInput::Variable(v) => seq![v],
        ComparisonInput::Fixed => Seq::empty(),
    };
    let r = match rhs {
        ComparisonInput::Variable(v) => seq![v],
        ComparisonInput::Fixed => Seq::empty(),
    };
    l + r
}

fn side_variables(lhs: ComparisonInput, rhs: ComparisonInput) -> (r: Vec<usize>)
    ensures
        r@ == side_seq(lhs, rhs),
        forall|v: usize|
            r@.contains(v) <==> (lhs == ComparisonInput::Variable(v) || rhs
                == ComparisonInput::Variable(v)),
        r@.len() <= 2,
{
    let mut r: Vec<usize> = Vec::new();
    if let ComparisonInput::Variable(v) = lhs {
        r.push(v);
    }
    if let ComparisonInput::Variable(v) = rhs {
        r.push(v);
    }
    proof {
        assert(r@ =~= side_seq(lhs, rhs));
        assert forall|v: usize|
            r@.contains(v) <==> (lhs == ComparisonInput::Variable(v) || rhs
                == ComparisonInput::Variable(v)) by {
            if r@.contains(v) {
                let i = choose|i: int| 0 <= i < r@.len() && r@[i] == v;
            }
            if lhs == ComparisonInput::Variable(v) {
                assert(r@[0] == v);
            }
            if rhs == ComparisonInput::Variable(v) {
                assert(r@[r@.len() - 1] == v);
            }
        }
    }
    r
}

/// Registers the comparison `lhs cmp rhs`: a pattern over its variables, which need both sides
/// bound, and the bounds it implies on each variable side. The right side is bounded as the
/// mirrored comparison `rhs mirror(cmp) lhs` says: for `a < b`, `a` gets the upper bound `b` and
/// `b` the lower bound `a`.
pub fn register_comparison(
    g: &mut Graph,
    lhs: ComparisonInput,
    rhs: ComparisonInput,
    cmp: Comparator,
    cost: Cost,
) -> (r: usize)
    requires
        old(g).wf(),
        old(g).num_patterns() + 1 < usize::MAX,
        input_in_range(*old(g), lhs),
        input_in_range(*old(g), rhs),
    ensures
        final(g).wf(),
        r == old(g).num_patterns(),
        final(g).variables@ == old(g).variables@,
        final(g).patterns@.len() == old(g).patterns@.len() + 1,
        final(g).patterns@.drop_last() == old(g).patterns@,
        final(g).pattern(r as int).kind == PatternKind::Comparison,
        forall|v: usize|
            final(g).pattern(r as int).references(v) <==> (lhs == ComparisonInput::Variable(v) || rhs
                == ComparisonInput::Variable(v)),
        final(g).pattern(r as int).required@ == final(g).pattern(r as int).variables@,
        forall|x: int|
            0 <= x < old(g).num_vars() ==> bounds_view(#[trigger] final(g).bounds@[x]) == side_imprint(
                side_imprint(bounds_view(old(g).bounds@[x]), lhs, x, cmp, rhs),
                rhs,
                x,
                mirror(cmp),
                lhs,
            ),
{
    imprint_exec(g, lhs, cmp, rhs);
    imprint_exec(g, rhs, mirror_exec(cmp), lhs);
    let variables = side_variables(lhs, rhs);
    let required = side_variables(lhs, rhs);
    proof {
        assert forall|i: int| 0 <= i < variables@.len() implies variables@[i] < g.num_vars() by {
            assert(variables@.contains(variables@[i]));
        }
        assert forall|i: int| 0 <= i < required@.len() implies required@[i] < g.num_vars() by {
            assert(required@.contains(required@[i]));
        }
        assert(variables@ == required@);
    }
    let ghost mid = *g;
    let p = g.push_pattern(
        PatternVertex {
            kind: PatternKind::Comparison,
            variables,
            required,
            canonical_scan: cost,
            canonical_seek: cost,
            reverse_scan: cost,
            reverse_seek: cost,
        },
    );
    proof {
        assert(g.patterns@.drop_last() =~= mid.patterns@);
    }
    p
}

pub open spec fn all_below(s: Seq<usize>, n: nat) -> bool {
    forall|i: int| 0 <= i < s.len() ==> s[i] < n
}

/// A pattern-vertex whose cost does not depend on its direction.
fn uniform_vertex(kind: PatternKind, variables: Vec<usize>, required: Vec<usize>, cost: Cost) -> (r:
    PatternVertex)
    ensures
        r.kind == kind,
        r.variables@ == variables@,
        r.required@ == required@,
        r.canonical_scan == cost,
{
    PatternVertex {
        kind,
        variables,
        required,
        canonical_scan: cost,
        canonical_seek: cost,
        reverse_scan: cost,
        reverse_seek: cost,
    }
}

/// Registers a binary constraint between `lhs` (its canonical prefix side) and `rhs`, with the
/// costs of a scan and of a seek in each direction.
pub fn register_constraint(
    g: &mut Graph,
    kind: ConstraintKind,
    lhs: usize,
    rhs: usize,
    canonical: (Cost, Cost),
    reverse: (Cost, Cost),
) -> (r: usize)
    requires
        old(g).wf(),
        old(g).num_patterns() + 1 < usize::MAX,
        lhs < old(g).num_vars(),
        rhs < old(g).num_vars(),
    ensures
        final(g).wf(),
        r == old(g).num_patterns(),
        final(g).variables@ == old(g).variables@,
        final(g).bounds@ == old(g).bounds@,
        final(g).patterns@.drop_last() == old(g).patterns@,
        final(g).patterns@.len() == old(g).patterns@.len() + 1,
        final(g).pattern(r as int).kind == PatternKind::Constraint(kind),
        final(g).pattern(r as int).variables@ == seq![lhs, rhs],
        final(g).pattern(r as int).required@.len() == 0,
        final(g).pattern(r as int).canonical_scan == canonical.0,
        final(g).pattern(r as int).canonical_seek == canonical.1,
        final(g).pattern(r as int).reverse_scan == reverse.0,
        final(g).pattern(r as int).reverse_seek == reverse.1,
{
    let mut variables: Vec<usize> = Vec::new();
    variables.push(lhs);
    variables.push(rhs);
    proof {
        assert(variables@ =~= seq![lhs, rhs]);
    }
    let ghost before = *g;
    let p = g.push_pattern(
        PatternVertex {
            kind: PatternKind::Constraint(kind),
            variables,
            required: Vec::new(),
            canonical_scan: canonical.0,
            canonical_seek: canonical.1,
            reverse_scan: reverse.0,
            reverse_seek: reverse.1,
        },
    );
    proof {
        assert(g.patterns@.drop_last() =~= before.patterns@);
    }
    p
}

/// Registers `lhs is rhs`: each variable records the other, and a pattern joins them.
pub fn register_is(g: &mut Graph, lhs: usize, rhs: usize, cost: Cost) -> (r: usize)
    requires
        old(g).wf(),
        old(g).num_patterns() + 1 < usize::MAX,
        lhs < old(g).num_vars(),
        rhs < old(g).num_vars(),
        lhs != rhs,
    ensures
        final(g).wf(),
        r == old(g).num_patterns(),
        final(g).variables@ == old(g).variables@,
        final(g).patterns@.drop_last() == old(g).patterns@,
        final(g).patterns@.len() == old(g).patterns@.len() + 1,
        final(g).pattern(r as int).kind == PatternKind::Is,
        final(g).pattern(r as int).variables@ == seq![lhs, rhs],
        final(g).bounds@[lhs as int].is@ == old(g).bounds@[lhs as int].is@.push(rhs),
        final(g).bounds@[rhs as int].is@ == old(g).bounds@[rhs as int].is@.push(lhs),
        forall|x: int|
            0 <= x < old(g).num_vars() && x != lhs && x != rhs ==> #[trigger] final(g).bounds@[x]
                == old(g).bounds@[x],
{
    let ghost g0 = *g;
    let mut b = g.take_bounds(lhs);
    b.is.push(rhs);
    g.set_bounds(lhs, b);
    let ghost g1 = *g;
    let mut c = g.take_bounds(rhs);
    c.is.push(lhs);
    g.set_bounds(rhs, c);
    let mut variables: Vec<usize> = Vec::new();
    variables.push(lhs);
    variables.push(rhs);
    proof {
        assert(variables@ =~= seq![lhs, rhs]);
    }
    let ghost before = *g;
    let p = g.push_pattern(uniform_vertex(PatternKind::Is, variables, Vec::new(), cost));
    proof {
        assert(g.patterns@.drop_last() =~= before.patterns@);
        assert(g.bounds@[lhs as int] == g1.bounds@[lhs as int]);
    }
    p
}

/// Registers an expression that computes `output` from `inputs`; the expression binds `output`
/// and needs `inputs` bound first.
pub fn register_expression(g: &mut Graph, output: usize, inputs: Vec<usize>, cost: Cost) -> (r: usize)
    requires
        old(g).wf(),
        old(g).num_patterns() + 1 < usize::MAX,
        output < old(g).num_vars(),
        all_below(inputs@, old(g).num_vars()),
    ensures
        final(g).wf(),
        r == old(g).num_patterns(),
        final(g).variables@ == old(g).variables@,
        final(g).patterns@.drop_last() == old(g).patterns@,
        final(g).patterns@.len() == old(g).patterns@.len() + 1,
        final(g).pattern(r as int).kind == PatternKind::Expression,
        final(g).pattern(r as int).variables@ == seq![output] + inputs@,
        final(g).pattern(r as int).required@ == inputs@,
        final(g).bounds@[output as int].binding == Some(r),
        bounds_view(final(g).bounds@[output as int]) == bounds_view(old(g).bounds@[output as int]),
        forall|x: int|
            0 <= x < old(g).num_vars() && x != output ==> #[trigger] final(g).bounds@[x]
                == old(g).bounds@[x],
{
    let mut variables: Vec<usize> = Vec::new();
    variables.push(output);
    let mut i: usize = 0;
    while i < inputs.len()
        invariant
            i <= inputs@.len(),
            variables@ == seq![output] + inputs@.take(i as int),
        decreases inputs@.len() - i,
    {
        variables.push(inputs[i]);
        proof {
            assert(variables@ =~= seq![output] + inputs@.take(i + 1));
        }
        i = i + 1;
    }
    proof {
        assert(inputs@.take(i as int) =~= inputs@);
        assert forall|k: int| 0 <= k < variables@.len() implies variables@[k] < g.num_vars() by {
            if k > 0 {
                assert(variables@[k] == inputs@[k - 1]);
            }
        }
    }
    let ghost before = *g;
    let p = g.push_pattern(uniform_vertex(PatternKind::Expression, variables, inputs, cost));
    let mut b = g.take_bounds(output);
    b.binding = Some(p);
    g.set_bounds(output, b);
    proof {
        assert(g.patterns@.drop_last() =~= before.patterns@);
    }
    p
}

/// Registers a function call that binds `assigned` from `arguments`; it needs `arguments`
/// bound first, and binds each assigned variable.
pub fn register_function_call(g: &mut Graph, assigned: &Vec<usize>, arguments: Vec<usize>, cost: Cost) -> (r: usize)
    requires
        old(g).wf(),
        old(g).num_patterns() + 1 < usize::MAX,
        all_below(assigned@, old(g).num_vars()),
        all_below(arguments@, old(g).num_vars()),
    ensures
        final(g).wf(),
        r == old(g).num_patterns(),
        final(g).variables@ == old(g).variables@,
        final(g).patterns@.drop_last() == old(g).patterns@,
        final(g).patterns@.len() == old(g).patterns@.len() + 1,
        final(g).pattern(r as int).kind == PatternKind::FunctionCall,
        final(g).pattern(r as int).variables@ == assigned@ + arguments@,
        final(g).pattern(r as int).required@ == arguments@,
        forall|x: int|
            0 <= x < old(g).num_vars() ==> (#[trigger] final(g).bounds@[x]).binding == (if assigned@.contains(
                x as usize,
            ) {
                Some(r)
            } else {
                old(g).bounds@[x].binding
            }) && bounds_view(final(g).bounds@[x]) == bounds_view(old(g).bounds@[x])
                && final(g).bounds@[x].is@ == old(g).bounds@[x].is@,
{
    let mut variables: Vec<usize> = Vec::new();
    let mut i: usize = 0;
    while i < assigned.len()
        invariant
            i <= assigned@.len(),
            variables@ == assigned@.take(i as int),
        decreases assigned@.len() - i,
    {
        variables.push(assigned[i]);
        proof {
            assert(variables@ =~= assigned@.take(i + 1));
        }
        i = i + 1;
    }
    let mut j: usize = 0;
    while j < arguments.len()
        invariant
            i == assigned@.len(),
            j <= arguments@.len(),
            variables@ == assigned@.take(i as int) + arguments@.take(j as int),
        decreases arguments@.len() - j,
    {
        variables.push(arguments[j]);
        proof {
            assert(variables@ =~= assigned@.take(i as int) + arguments@.take(j + 1));
        }
        j = j + 1;
    }
    proof {
        assert(assigned@.take(i as int) =~= assigned@);
        assert(arguments@.take(j as int) =~= arguments@);
        assert forall|k: int| 0 <= k < variables@.len() implies variables@[k] < g.num_vars() by {
            if k >= assigned@.len() {
                assert(variables@[k] == arguments@[k - assigned@.len()]);
            }
        }
    }
    let ghost before = *g;
    let p = g.push_pattern(uniform_vertex(PatternKind::FunctionCall, variables, arguments, cost));
    let ghost mid = *g;
    let mut k: usize = 0;
    while k < assigned.len()
        invariant
            g.wf(),
            mid.wf(),
            all_below(assigned@, mid.num_vars()),
            k <= assigned@.len(),
            g.variables@ == mid.variables@,
            g.patterns@ == mid.patterns@,
            g.bounds@.len() == mid.bounds@.len(),
            forall|x: int|
                0 <= x < mid.num_vars() ==> (#[trigger] g.bounds@[x]).binding == (if assigned@.take(
                    k as int,
                ).contains(x as usize) {
                    Some(p)
                } else {
                    mid.bounds@[x].binding
                }) && bounds_view(g.bounds@[x]) == bounds_view(mid.bounds@[x]) && g.bounds@[x].is@
                    == mid.bounds@[x].is@,
        decreases assigned@.len() - k,
    {
        let v = assigned[k];
        let ghost gk = *g;
        let mut b = g.take_bounds(v);
        b.binding = Some(p);
        g.set_bounds(v, b);
        proof {
            assert forall|x: int| 0 <= x < mid.num_vars() implies (#[trigger] g.bounds@[x]).binding == (
            if assigned@.take(k + 1).contains(x as usize) {
                Some(p)
            } else {
                mid.bounds@[x].binding
            }) && bounds_view(g.bounds@[x]) == bounds_view(mid.bounds@[x]) && g.bounds@[x].is@
                == mid.bounds@[x].is@ by {
                let t1 = assigned@.take(k + 1);
                let t0 = assigned@.take(k as int);
                assert(t1 =~= t0.push(v));
                if x != v as int {
                    assert(g.bounds@[x] == gk.bounds@[x]);
                    assert(t1.contains(x as usize) == t0.contains(x as usize)) by {
                        if t1.contains(x as usize) {
                            let i = choose|i: int| 0 <= i < t1.len() && t1[i] == x as usize;
                            assert(i < t0.len());
                            assert(t0[i] == x as usize);
                        }
                        if t0.contains(x as usize) {
                            let i = choose|i: int| 0 <= i < t0.len() && t0[i] == x as usize;
                            assert(t1[i] == x as usize);
                        }
                    }
                } else {
                    assert(t1[k as int] == v);
                    assert(t1.contains(x as usize));
                    assert(bounds_view(gk.bounds@[x]) == bounds_view(mid.bounds@[x]));
                }
            }
        }
        k = k + 1;
    }
    proof {
        assert(assigned@.take(k as int) =~= assigned@);
        assert(g.patterns@.drop_last() =~= before.patterns@);
    }
    p
}

/// Registers a pattern that only checks rows: a links-deduplication over `variables`, or a
/// constraint found unsatisfiable (with no variables), which runs once its variables are bound.
pub fn register_check_pattern(g: &mut Graph, unsatisfiable: bool, variables: Vec<usize>, cost: Cost) -> (r:
    usize)
    requires
        old(g).wf(),
        old(g).num_patterns() + 1 < usize::MAX,
        all_below(variables@, old(g).num_vars()),
    ensures
        final(g).wf(),
        r == old(g).num_patterns(),
        final(g).variables@ == old(g).variables@,
        final(g).bounds@ == old(g).bounds@,
        final(g).patterns@.drop_last() == old(g).patterns@,
        final(g).patterns@.len() == old(g).patterns@.len() + 1,
        final(g).pattern(r as int).kind == (if unsatisfiable {
            PatternKind::Unsatisfiable
        } else {
            PatternKind::LinksDeduplication
        }),
        unsatisfiable ==> final(g).pattern(r as int).variables@.len() == 0,
        !unsatisfiable ==> final(g).pattern(r as int).variables@ == variables@,
        final(g).pattern(r as int).required@ == final(g).pattern(r as int).variables@,
{
    let (kind, vars) = if unsatisfiable {
        (PatternKind::Unsatisfiable, Vec::new())
    } else {
        (PatternKind::LinksDeduplication, variables)
    };
    let mut required: Vec<usize> = Vec::new();
    let mut i: usize = 0;
    while i < vars.len()
        invariant
            i <= vars@.len(),
            required@ == vars@.take(i as int),
        decreases vars@.len() - i,
    {
        required.push(vars[i]);
        proof {
            assert(required@ =~= vars@.take(i + 1));
        }
        i = i + 1;
    }
    proof {
        assert(vars@.take(i as int) =~= vars@);
    }
    let ghost before = *g;
    let p = g.push_pattern(uniform_vertex(kind, vars, required, cost));
    proof {
        assert(g.patterns@.drop_last() =~= before.patterns@);
    }
    p
}

/// The kinds of nested pattern a conjunction may hold.
#[derive(Clone, Copy, Debug, PartialEq, Eq, Structural)]
pub enum NestedKind {
    Disjunction,
    Negation,
    Optional,
}

/// Registers a nested disjunction or negation, planned beforehand, over `variables`, needing
/// `required` bound first. Optional patterns are rejected.
pub fn register_nested(
    g: &mut Graph,
    kind: NestedKind,
    variables: Vec<usize>,
    required: Vec<usize>,
    cost: Cost,
) -> (r: Result<usize, QueryPlanningError>)
    requires
        old(g).wf(),
        old(g).num_patterns() + 1 < usize::MAX,
        all_below(variables@, old(g).num_vars()),
        all_below(required@, old(g).num_vars()),
    ensures
        final(g).wf(),
        final(g).variables@ == old(g).variables@,
        final(g).bounds@ == old(g).bounds@,
        kind == NestedKind::Optional ==> r == Err::<usize, QueryPlanningError>(
            QueryPlanningError::UnimplementedOptionals,
        ) && final(g).patterns@ == old(g).patterns@,
        kind != NestedKind::Optional ==> r == Ok::<usize, QueryPlanningError>(old(g).num_patterns() as usize)
            && final(g).patterns@.drop_last() == old(g).patterns@ && final(g).patterns@.len()
            == old(g).patterns@.len() + 1 && final(g).pattern(old(g).num_patterns() as int).kind == (
        if kind == NestedKind::Negation {
            PatternKind::Negation
        } else {
            PatternKind::Disjunction
        }) && final(g).pattern(old(g).num_patterns() as int).variables@ == variables@
            && final(g).pattern(old(g).num_patterns() as int).required@ == required@,
{
    let pk = match kind {
        NestedKind::Optional => {
            return Err(QueryPlanningError::UnimplementedOptionals);
        },
        NestedKind::Negation => PatternKind::Negation,
        NestedKind::Disjunction => PatternKind::Disjunction,
    };
    let ghost before = *g;
    let p = g.push_pattern(uniform_vertex(pk, variables, required, cost));
    proof {
        assert(g.patterns@.drop_last() =~= before.patterns@);
    }
    Ok(p)
}

/// A variable of a conjunction with what the plan needs to know of it.
#[derive(Clone, Copy, Debug, PartialEq, Eq, Structural)]
pub struct VariableInfo {
    pub variable: u64,
    pub category: VariableCategory,
    pub expected_size: u64,
}

/// A constraint of a conjunction, over its variables.
#[derive(Clone, Debug)]
pub enum PlannableConstraint {
    /// A binary constraint, `lhs` on its canonical prefix side, with the costs of a scan and of
    /// a seek in each direction.
    Binary {
        kind: ConstraintKind,
        lhs: u64,
        rhs: u64,
        canonical_scan: Cost,
        canonical_seek: Cost,
        reverse_scan: Cost,
        reverse_seek: Cost,
    },
    /// A comparison; a side without a variable compares against a fixed value.
    Comparison { lhs: Option<u64>, rhs: Option<u64>, comparator: Comparator, cost: Cost },
    /// `lhs is rhs`, over two different variables.
    Is { lhs: u64, rhs: u64, cost: Cost },
    /// An expression that computes `output` from `inputs`.
    Expression { output: u64, inputs: Vec<u64>, cost: Cost },
    /// A function call that binds `assigned` from `arguments`.
    FunctionCall { assigned: Vec<u64>, arguments: Vec<u64>, cost: Cost },
    /// A check that the relations bound to `variables` are distinct.
    LinksDeduplication { variables: Vec<u64>, cost: Cost },
    /// A constraint found unsatisfiable before planning.
    Unsatisfiable { cost: Cost },
}

/// A pattern nested in a conjunction.
#[derive(Debug)]
pub enum PlannableNested {
    Negation(PlannableConjunction),
    Optional(PlannableConjunction),
}

/// A conjunction as the planner takes it: its variables (each once, with its category), its
/// constraints and its nested patterns.
#[derive(Debug)]
pub struct PlannableConjunction {
    pub variables: Vec<VariableInfo>,
    pub constraints: Vec<PlannableConstraint>,
    pub nested: Vec<PlannableNested>,
}

/// `c` or a conjunction nested in it holds an optional pattern.
pub open spec fn has_optional(c: PlannableConjunction) -> bool
    decreases c,
{
    exists|i: int|
        0 <= i < c.nested@.len() && match #[trigger] c.nested@[i] {
            PlannableNested::Optional(_) => true,
            PlannableNested::Negation(n) => has_optional(n),
        }
}

/// `c` or a conjunction nested in it has a list variable.
pub open spec fn has_list(c: PlannableConjunction) -> bool
    decreases c,
{
    (exists|i: int| 0 <= i < c.variables@.len() && kind_of_category(#[trigger] c.variables@[i].category) is None)
        || exists|i: int|
        0 <= i < c.nested@.len() && match #[trigger] c.nested@[i] {
            PlannableNested::Optional(n) => has_list(n),
            PlannableNested::Negation(n) => has_list(n),
        }
}

pub open spec fn info_of(vars: Seq<VariableInfo>, v: u64) -> bool {
    exists|i: int| 0 <= i < vars.len() && #[trigger] vars[i].variable == v
}

pub open spec fn all_known(vars: Seq<VariableInfo>, s: Seq<u64>) -> bool {
    forall|i: int| 0 <= i < s.len() ==> info_of(vars, #[trigger] s[i])
}

pub open spec fn constraint_mentions_known(vars: Seq<VariableInfo>, k: PlannableConstraint) -> bool {
    match k {
        PlannableConstraint::Binary { lhs, rhs, .. } => info_of(vars, lhs) && info_of(vars, rhs),
        PlannableConstraint::Comparison { lhs, rhs, .. } => (lhs matches Some(v) ==> info_of(vars, v))
            && (rhs matches Some(v) ==> info_of(vars, v)),
        PlannableConstraint::Is { lhs, rhs, .. } => info_of(vars, lhs) && info_of(vars, rhs) && lhs != rhs,
        PlannableConstraint::Expression { output, inputs, .. } => info_of(vars, output) && all_known(
            vars,
            inputs@,
        ),
        PlannableConstraint::FunctionCall { assigned, arguments, .. } => all_known(vars, assigned@)
            && all_known(vars, arguments@),
        PlannableConstraint::LinksDeduplication { variables, .. } => all_known(vars, variables@),
        PlannableConstraint::Unsatisfiable { .. } => true,
    }
}

/// Every constraint names declared variables, each variable is declared once, no category is
/// unresolved, and no part is too large to index.
pub open spec fn plannable(c: PlannableConjunction) -> bool
    decreases c,
{
    &&& c.variables@.len() < 0x1000_0000
    &&& c.constraints@.len() < 0x1000_0000
    &&& c.nested@.len() < 0x1000_0000
    &&& forall|i: int|
        0 <= i < c.variables@.len() ==> (#[trigger] c.variables@[i]).category
            != VariableCategory::AttributeOrValue
    &&& forall|i: int, j: int|
        0 <= i < c.variables@.len() && 0 <= j < c.variables@.len() && (#[trigger] c.variables@[i]).variable
            == (#[trigger] c.variables@[j]).variable ==> i == j
    &&& forall|i: int|
        0 <= i < c.constraints@.len() ==> constraint_mentions_known(c.variables@, #[trigger] c.constraints@[i])
    &&& forall|i: int|
        0 <= i < c.nested@.len() ==> match #[trigger] c.nested@[i] {
            PlannableNested::Optional(n) => plannable(n),
            PlannableNested::Negation(n) => plannable(n),
        }
}

/// Whether `c` or a conjunction nested in it holds an optional pattern.
pub fn contains_optional(c: &PlannableConjunction) -> (r: bool)
    ensures
        r == has_optional(*c),
    decreases c,
{
    let mut i: usize = 0;
    while i < c.nested.len()
        invariant
            i <= c.nested@.len(),
            forall|k: int|
                0 <= k < i ==> !match #[trigger] c.nested@[k] {
                    PlannableNested::Optional(_) => true,
                    PlannableNested::Negation(n) => has_optional(n),
                },
        decreases c.nested@.len() - i,
    {
        match &c.nested[i] {
            PlannableNested::Optional(_) => {
                return true;
            },
            PlannableNested::Negation(n) => {
                proof {
                    assert(decreases_to!(*c => c.nested));
                }
                if contains_optional(n) {
                    return true;
                }
            },
        }
        i = i + 1;
    }
    false
}

fn position_of(index: &Vec<u64>, v: u64) -> (r: Option<usize>)
    ensures
        r matches Some(i) ==> i < index@.len() && index@[i as int] == v,
        r is None ==> !index@.contains(v),
{
    let mut i: usize = 0;
    while i < index.len()
        invariant
            i <= index@.len(),
            forall|k: int| 0 <= k < i ==> index@[k] != v,
        decreases index@.len() - i,
    {
        if index[i] == v {
            return Some(i);
        }
        i = i + 1;
    }
    None
}

fn info_for(vars: &Vec<VariableInfo>, v: u64) -> (r: Option<VariableInfo>)
    ensures
        r matches Some(info) ==> info.variable == v && vars@.contains(info),
        r is None ==> !info_of(vars@, v),
{
    let mut i: usize = 0;
    while i < vars.len()
        invariant
            i <= vars@.len(),
            forall|k: int| 0 <= k < i ==> vars@[k].variable != v,
        decreases vars@.len() - i,
    {
        if vars[i].variable == v {
            proof {
                assert(vars@[i as int] == vars[i as int]);
            }
            return Some(vars[i]);
        }
        i = i + 1;
    }
    None
}

/// Where variable `v` stands in registration order: inputs first, then shared variables, then
/// the conjunction's own.
pub open spec fn rank(inputs: Seq<u64>, shared: Seq<u64>, v: u64) -> int {
    if inputs.contains(v) {
        0
    } else if shared.contains(v) {
        1
    } else {
        2
    }
}

/// `index` maps graph ids to variables, each registered once, inputs as inputs, and in
/// registration order.
pub open spec fn registered(g: Graph, index: Seq<u64>, inputs: Seq<u64>, shared: Seq<u64>) -> bool {
    &&& g.wf()
    &&& index.len() == g.num_vars()
    &&& index.no_duplicates()
    &&& forall|i: int| 0 <= i < index.len() ==> (g.is_input(i) <==> inputs.contains(#[trigger] index[i]))
    &&& forall|i: int, j: int|
        0 <= i <= j < index.len() ==> rank(inputs, shared, #[trigger] index[i]) <= rank(
            inputs,
            shared,
            #[trigger] index[j],
        )
}

fn register_named(
    g: &mut Graph,
    index: &mut Vec<u64>,
    v: u64,
    kind: VariableKind,
    size: u64,
    Ghost(inputs): Ghost<Seq<u64>>,
    Ghost(shared): Ghost<Seq<u64>>,
)
    requires
        registered(*old(g), old(index)@, inputs, shared),
        !old(index)@.contains(v),
        old(g).num_vars() + 2 < usize::MAX,
        kind == VariableKind::Input <==> inputs.contains(v),
        forall|i: int| 0 <= i < old(index)@.len() ==> rank(inputs, shared, #[trigger] old(index)@[i]) <= rank(inputs, shared, v),
    ensures
        registered(*final(g), final(index)@, inputs, shared),
        final(index)@ == old(index)@.push(v),
        final(g).patterns@ == old(g).patterns@,
        final(g).variables@ == old(g).variables@.push(VariableVertex { kind, expected_size: size }),
{
    let ghost oi = index@;
    g.push_variable(VariableVertex { kind, expected_size: size });
    index.push(v);
    proof {
        assert forall|a: int, b: int| 0 <= a < index@.len() && 0 <= b < index@.len() && a != b implies index@[a] != index@[b] by {
            if a < oi.len() && b < oi.len() {
                assert(index@[a] == oi[a] && index@[b] == oi[b]);
            } else if a == oi.len() {
                assert(index@[b] == oi[b]);
                assert(oi.contains(oi[b]));
            } else {
                assert(index@[a] == oi[a]);
                assert(oi.contains(oi[a]));
            }
        }
        assert forall|i: int| 0 <= i < index@.len() implies (g.is_input(i) <==> inputs.contains(#[trigger] index@[i])) by {
            if i < oi.len() {
                assert(index@[i] == oi[i]);
                assert(g.variables@[i] == old(g).variables@[i]);
            }
        }
        assert forall|i: int, j: int|
            0 <= i <= j < index@.len() implies rank(inputs, shared, #[trigger] index@[i]) <= rank(
                inputs,
                shared,
                #[trigger] index@[j],
            ) by {
            if j < oi.len() {
                assert(index@[i] == oi[i] && index@[j] == oi[j]);
            } else if i < oi.len() {
                assert(index@[i] == oi[i]);
            }
        }
    }
}

/// The variables of `vars` that the enclosing scope also holds, as `outer` lists them.
fn shared_with(vars: &Vec<VariableInfo>, outer: &Vec<u64>) -> (r: Vec<u64>)
    ensures
        forall|v: u64| r@.contains(v) <==> (outer@.contains(v) && info_of(vars@, v)),
        r@.len() <= vars@.len(),
{
    let mut r: Vec<u64> = Vec::new();
    let mut i: usize = 0;
    while i < vars.len()
        invariant
            i <= vars@.len(),
            r@.len() <= i,
            forall|v: u64|
                r@.contains(v) <==> (outer@.contains(v) && exists|k: int| 0 <= k < i && #[trigger] vars@[k].variable == v),
        decreases vars@.len() - i,
    {
        let v = vars[i].variable;
        let ghost prev = r@;
        if position_of(outer, v).is_some() {
            r.push(v);
        }
        proof {
            assert forall|w: u64|
                r@.contains(w) <==> (outer@.contains(w) && exists|k: int| 0 <= k < i + 1 && #[trigger] vars@[k].variable == w) by {
                if r@.contains(w) && !prev.contains(w) {
                    assert(r@[r@.len() - 1] == w);
                    assert(vars@[i as int].variable == w);
                }
                if prev.contains(w) {
                    let k = choose|k: int| 0 <= k < prev.len() && prev[k] == w;
                    assert(r@[k] == w);
                }
                if outer@.contains(w) && exists|k: int| 0 <= k < i + 1 && #[trigger] vars@[k].variable == w {
                    let k = choose|k: int| 0 <= k < i + 1 && #[trigger] vars@[k].variable == w;
                    if k == i {
                        assert(r@[r@.len() - 1] == w);
                    }
                }
            }
        }
        i = i + 1;
    }
    proof {
        assert forall|v: u64| r@.contains(v) <==> (outer@.contains(v) && info_of(vars@, v)) by {
            if info_of(vars@, v) {
                let k = choose|k: int| 0 <= k < vars@.len() && #[trigger] vars@[k].variable == v;
            }
        }
    }
    r
}

/// Variable `v` is declared in `vars` with a category that plans as kind `k`.
pub open spec fn declared_kind(vars: Seq<VariableInfo>, v: u64, k: VariableKind) -> bool {
    exists|i: int|
        0 <= i < vars.len() && #[trigger] vars[i].variable == v && kind_of_category(vars[i].category)
            == Some(k)
}

/// Each registered variable that is not an input has the kind its category plans as.
pub open spec fn kinds_by_category(g: Graph, index: Seq<u64>, c: PlannableConjunction, inputs: Seq<u64>) -> bool {
    forall|i: int|
        0 <= i < index.len() && !inputs.contains(index[i]) ==> declared_kind(
            c.variables@,
            #[trigger] index[i],
            g.variables@[i].kind,
        )
}

/// `pv` is the pattern of constraint `k`, its edges leading through `index` to the constraint's
/// variables.
pub open spec fn constraint_pattern(index: Seq<u64>, k: PlannableConstraint, pv: PatternVertex) -> bool {
    match k {
        PlannableConstraint::Binary { kind, lhs, rhs, .. } => {
            &&& pv.kind == PatternKind::Constraint(kind)
            &&& pv.variables@.len() == 2
            &&& pv.variables@[0] < index.len() && index[pv.variables@[0] as int] == lhs
            &&& pv.variables@[1] < index.len() && index[pv.variables@[1] as int] == rhs
        },
        PlannableConstraint::Comparison { lhs, rhs, .. } => {
            &&& pv.kind == PatternKind::Comparison
            &&& forall|v: usize|
                v < index.len() ==> (#[trigger] pv.references(v) <==> (lhs == Some(index[v as int]) || rhs
                    == Some(index[v as int])))
        },
        PlannableConstraint::Is { lhs, rhs, .. } => pv.kind == PatternKind::Is && maps_to(
            index,
            pv.variables@,
            seq![lhs, rhs],
        ),
        PlannableConstraint::Expression { output, inputs, .. } => pv.kind == PatternKind::Expression
            && maps_to(index, pv.variables@, seq![output] + inputs@),
        PlannableConstraint::FunctionCall { assigned, arguments, .. } => pv.kind == PatternKind::FunctionCall
            && maps_to(index, pv.variables@, assigned@ + arguments@),
        PlannableConstraint::LinksDeduplication { variables, .. } => pv.kind
            == PatternKind::LinksDeduplication && maps_to(index, pv.variables@, variables@),
        PlannableConstraint::Unsatisfiable { .. } => pv.kind == PatternKind::Unsatisfiable
            && pv.variables@.len() == 0,
    }
}

/// The graph ids `ids` stand, through `index`, for the variables `vars`, position by position.
pub open spec fn maps_to(index: Seq<u64>, ids: Seq<usize>, vars: Seq<u64>) -> bool {
    &&& ids.len() == vars.len()
    &&& forall|i: int| 0 <= i < ids.len() ==> #[trigger] ids[i] < index.len() && index[ids[i] as int] == vars[i]
}

/// The graph ids of `vars`, each registered in `index`.
fn ids_of(index: &Vec<u64>, vars: &Vec<u64>) -> (r: Vec<usize>)
    requires
        forall|v: u64| vars@.contains(v) ==> index@.contains(v),
    ensures
        maps_to(index@, r@, vars@),
{
    let mut r: Vec<usize> = Vec::new();
    let mut i: usize = 0;
    while i < vars.len()
        invariant
            i <= vars@.len(),
            forall|v: u64| vars@.contains(v) ==> index@.contains(v),
            r@.len() == i,
            forall|k: int| 0 <= k < i ==> #[trigger] r@[k] < index@.len() && index@[r@[k] as int] == vars@[k],
        decreases vars@.len() - i,
    {
        let id = match position_of(index, vars[i]) {
            Some(id) => id,
            None => {
                proof {
                    assert(vars@.contains(vars@[i as int]));
                    assert(false);
                }
                0
            },
        };
        r.push(id);
        i = i + 1;
    }
    r
}

/// The first patterns of `g` are those of `c`'s constraints, one each, in order.
pub open spec fn patterns_follow(g: Graph, index: Seq<u64>, c: PlannableConjunction) -> bool {
    &&& g.num_patterns() >= c.constraints@.len()
    &&& forall|k: int|
        0 <= k < c.constraints@.len() ==> constraint_pattern(index, c.constraints@[k], #[trigger] g.patterns@[k])
}

/// `g`, with `index` mapping its variables, is a graph of `c` with `inputs` bound and `shared`
/// visible outside.
pub open spec fn built_from(
    g: Graph,
    index: Seq<u64>,
    c: PlannableConjunction,
    inputs: Seq<u64>,
    shared: Seq<u64>,
) -> bool {
    &&& registered(g, index, inputs, shared)
    &&& kinds_by_category(g, index, c, inputs)
    &&& patterns_follow(g, index, c)
}

/// A graph of `c`, with some inputs, that is stuck.
pub open spec fn stuck_graph_of(g: Graph, index: Seq<u64>, c: PlannableConjunction, inputs: Seq<u64>, remaining: Seq<bool>) -> bool {
    built_from(g, index, c, inputs, Seq::empty()) && stuck(g, remaining)
}

/// Some negation nested in `c`, at any depth, has a graph that no order can run.
pub open spec fn has_unplannable_negation(c: PlannableConjunction) -> bool
    decreases c,
{
    exists|i: int|
        0 <= i < c.nested@.len() && match #[trigger] c.nested@[i] {
            PlannableNested::Optional(_) => false,
            PlannableNested::Negation(n) => has_unplannable_negation(n) || exists|
                g: Graph,
                index: Seq<u64>,
                inputs: Seq<u64>,
                remaining: Seq<bool>,
            | #[trigger] stuck_graph_of(g, index, n, inputs, remaining),
        }
}

/// Whether `c` or a conjunction nested in it has a list variable.
pub fn contains_list(c: &PlannableConjunction) -> (r: bool)
    ensures
        r == has_list(*c),
    decreases c,
{
    let mut k: usize = 0;
    while k < c.variables.len()
        invariant
            k <= c.variables@.len(),
            forall|x: int| 0 <= x < k ==> kind_of_category(#[trigger] c.variables@[x].category) is Some,
        decreases c.variables@.len() - k,
    {
        if kind_for(c.variables[k].category).is_none() {
            return true;
        }
        k = k + 1;
    }
    let mut i: usize = 0;
    while i < c.nested.len()
        invariant
            i <= c.nested@.len(),
            forall|x: int| 0 <= x < c.variables@.len() ==> kind_of_category(#[trigger] c.variables@[x].category) is Some,
            forall|x: int|
                0 <= x < i ==> !match #[trigger] c.nested@[x] {
                    PlannableNested::Optional(n) => has_list(n),
                    PlannableNested::Negation(n) => has_list(n),
                },
        decreases c.nested@.len() - i,
    {
        proof {
            assert(decreases_to!(*c => c.nested));
        }
        let found = match &c.nested[i] {
            PlannableNested::Optional(n) => contains_list(n),
            PlannableNested::Negation(n) => contains_list(n),
        };
        if found {
            return true;
        }
        i = i + 1;
    }
    false
}

/// A nested negation planned on its own graph.
pub struct NestedPlan {
    pub graph: Graph,
    pub plan: CompletePlan,
}

fn kind_for(category: VariableCategory) -> (r: Option<VariableKind>)
    ensures
        r == kind_of_category(category),
{
    match category {
        VariableCategory::Type | VariableCategory::ThingType | VariableCategory::AttributeType
        | VariableCategory::RoleType => Some(VariableKind::Type),
        VariableCategory::Thing | VariableCategory::Object | VariableCategory::Attribute => Some(
            VariableKind::Thing,
        ),
        VariableCategory::Value => Some(VariableKind::Value),
        _ => None,
    }
}

/// Builds the graph of conjunction `c`, whose `inputs` are bound before it runs and whose
/// `shared` variables are visible to the enclosing scope. Nested negations are planned first,
/// each on its own graph with the variables it shares with this scope as its inputs, and then
/// installed as a pattern over those variables. Variables are registered once each: the inputs
/// as inputs, then the shared ones, then the conjunction's own; then the constraints.
/// Optional patterns and list variables are rejected.
pub fn make_graph(c: &PlannableConjunction, inputs: &Vec<u64>, shared: &Vec<u64>) -> (r: Result<
    (Graph, Vec<u64>, Vec<NestedPlan>),
    QueryPlanningError,
>)
    requires
        plannable(*c),
        inputs@.len() < 0x1000_0000,
        shared@.len() < 0x1000_0000,
        forall|v: u64| #[trigger] shared@.contains(v) ==> inputs@.contains(v) || info_of(c.variables@, v),
    ensures
        has_optional(*c) ==> r == Err::<(Graph, Vec<u64>, Vec<NestedPlan>), QueryPlanningError>(
            QueryPlanningError::UnimplementedOptionals,
        ),
        !has_optional(*c) && has_list(*c) ==> r == Err::<(Graph, Vec<u64>, Vec<NestedPlan>), QueryPlanningError>(
            QueryPlanningError::UnimplementedLists,
        ),
        !has_optional(*c) && !has_list(*c) && !has_unplannable_negation(*c) ==> r is Ok,
        r matches Ok(res) ==> {
            &&& built_from(res.0, res.1@, *c, inputs@, shared@)
            &&& forall|v: u64|
                inputs@.contains(v) || shared@.contains(v) || info_of(c.variables@, v) ==> #[trigger] res.1@.contains(v)
            &&& forall|i: int| 0 <= i < res.2@.len() ==> (#[trigger] res.2@[i]).plan.complete(res.2@[i].graph)
        },
        r matches Err(e) ==> (e == QueryPlanningError::UnimplementedOptionals && has_optional(*c)) || (e
            == QueryPlanningError::UnimplementedLists && has_list(*c)) || (e
            == QueryPlanningError::ExpectedPlannableConjunction && has_unplannable_negation(*c)),
    decreases c,
{
    if contains_optional(c) {
        return Err(QueryPlanningError::UnimplementedOptionals);
    }
    if contains_list(c) {
        return Err(QueryPlanningError::UnimplementedLists);
    }
    // the variables this scope holds, for the negations to share
    let mut outer: Vec<u64> = Vec::new();
    let mut k: usize = 0;
    while k < inputs.len()
        invariant
            k <= inputs@.len(),
            outer@.len() == k,
        decreases inputs@.len() - k,
    {
        outer.push(inputs[k]);
        k = k + 1;
    }
    let mut k: usize = 0;
    while k < c.variables.len()
        invariant
            k <= c.variables@.len(),
            outer@.len() <= inputs@.len() + k,
        decreases c.variables@.len() - k,
    {
        outer.push(c.variables[k].variable);
        k = k + 1;
    }
    // nested negations first
    let mut nested: Vec<NestedPlan> = Vec::new();
    let mut negation_vars: Vec<Vec<u64>> = Vec::new();
    let mut negation_costs: Vec<Cost> = Vec::new();
    let mut i: usize = 0;
    while i < c.nested.len()
        invariant
            plannable(*c),
            !has_optional(*c),
            i <= c.nested@.len(),
            negation_vars@.len() == negation_costs@.len(),
            negation_vars@.len() <= i,
            !has_list(*c),
            forall|x: int| 0 <= x < nested@.len() ==> (#[trigger] nested@[x]).plan.complete(nested@[x].graph),
        decreases c.nested@.len() - i,
    {
        match &c.nested[i] {
            PlannableNested::Optional(_) => {
                proof {
                    assert(has_optional(*c));
                }
            },
            PlannableNested::Negation(n) => {
                proof {
                    assert(decreases_to!(*c => c.nested));
                    assert(plannable(*n));
                    if has_optional(*n) {
                        assert(has_optional(*c));
                    }
                }
                let n_inputs = shared_with(&n.variables, &outer);
                let empty: Vec<u64> = Vec::new();
                proof {
                    if has_list(*n) {
                        assert(has_list(*c));
                    }
                }
                let (graph, n_index, mut deeper) = match make_graph(n, &n_inputs, &empty) {
                    Ok(res) => res,
                    Err(e) => {
                        proof {
                            assert(has_unplannable_negation(*n));
                            assert(match c.nested@[i as int] {
                                PlannableNested::Optional(_) => false,
                                PlannableNested::Negation(m) => has_unplannable_negation(m) || exists|
                                    g: Graph,
                                    index: Seq<u64>,
                                    inputs: Seq<u64>,
                                    remaining: Seq<bool>,
                                | #[trigger] stuck_graph_of(g, index, m, inputs, remaining),
                            });
                            assert(has_unplannable_negation(*c));
                        }
                        return Err(e);
                    },
                };
                let plan = match beam_search_plan(&graph) {
                    Ok(plan) => plan,
                    Err(e) => {
                        proof {
                            let rem = choose|rem: Seq<bool>| stuck(graph, rem);
                            assert(empty@ =~= Seq::<u64>::empty());
                            assert(stuck_graph_of(graph, n_index@, *n, n_inputs@, rem));
                            assert(match c.nested@[i as int] {
                                PlannableNested::Optional(_) => false,
                                PlannableNested::Negation(m) => has_unplannable_negation(m) || exists|
                                    g: Graph,
                                    index: Seq<u64>,
                                    inputs: Seq<u64>,
                                    remaining: Seq<bool>,
                                | #[trigger] stuck_graph_of(g, index, m, inputs, remaining),
                            });
                            assert(has_unplannable_negation(*c));
                        }
                        return Err(QueryPlanningError::ExpectedPlannableConjunction);
                    },
                };
                negation_costs.push(plan.cumulative_cost);
                let ghost before = nested@;
                let ghost moved = deeper@;
                nested.push(NestedPlan { graph, plan });
                nested.append(&mut deeper);
                proof {
                    assert forall|x: int| 0 <= x < nested@.len() implies (#[trigger] nested@[x]).plan.complete(
                        nested@[x].graph,
                    ) by {
                        if x < before.len() {
                            assert(nested@[x] == before[x]);
                        } else if x > before.len() {
                            assert(nested@[x] == moved[x - before.len() - 1]);
                        }
                    }
                }
                negation_vars.push(n_inputs);
            },
        }
        i = i + 1;
    }
    // the variables: inputs, then shared, then local
    let ghost ins = inputs@;
    let ghost sh = shared@;
    let mut g = Graph::new();
    let mut index: Vec<u64> = Vec::new();
    let mut k: usize = 0;
    while k < inputs.len()
        invariant
            k <= inputs@.len(),
            inputs@.len() < 0x1000_0000,
            ins == inputs@,
            registered(g, index@, ins, sh),
            index@.len() <= k,
            g.num_patterns() == 0,
            forall|x: int| 0 <= x < index@.len() ==> rank(ins, sh, #[trigger] index@[x]) == 0,
            kinds_by_category(g, index@, *c, ins),
            forall|x: int| 0 <= x < k ==> index@.contains(#[trigger] inputs@[x]),
        decreases inputs@.len() - k,
    {
        let v = inputs[k];
        if position_of(&index, v).is_none() {
            proof {
                assert(inputs@[k as int] == v);
                assert(ins.contains(v));
            }
            let ghost old_index = index@;
            register_named(&mut g, &mut index, v, VariableKind::Input, SCALE, Ghost(ins), Ghost(sh));
            proof {
                assert(index@[index@.len() - 1] == v);
                assert forall|x: int| 0 <= x < k + 1 implies index@.contains(#[trigger] inputs@[x]) by {
                    if x < k {
                        let y = choose|y: int| 0 <= y < old_index.len() && old_index[y] == inputs@[x];
                        assert(index@[y] == inputs@[x]);
                    } else {
                        assert(index@[index@.len() - 1] == inputs@[x]);
                    }
                }
            }
        }
        k = k + 1;
    }
    let mut k: usize = 0;
    while k < shared.len()
        invariant
            k <= shared@.len(),
            inputs@.len() < 0x1000_0000,
            shared@.len() < 0x1000_0000,
            ins == inputs@,
            sh == shared@,
            plannable(*c),
            !has_optional(*c),
            forall|v: u64| #[trigger] shared@.contains(v) ==> inputs@.contains(v) || info_of(c.variables@, v),
            registered(g, index@, ins, sh),
            index@.len() <= inputs@.len() + k,
            g.num_patterns() == 0,
            forall|x: int| 0 <= x < index@.len() ==> rank(ins, sh, #[trigger] index@[x]) <= 1,
            !has_list(*c),
            kinds_by_category(g, index@, *c, ins),
            forall|x: int| 0 <= x < inputs@.len() ==> index@.contains(#[trigger] inputs@[x]),
            forall|x: int| 0 <= x < k ==> index@.contains(#[trigger] shared@[x]),
        decreases shared@.len() - k,
    {
        let v = shared[k];
        if position_of(&index, v).is_none() {
            proof {
                assert(shared@[k as int] == v);
                assert(sh.contains(v));
                if ins.contains(v) {
                    let y = choose|y: int| 0 <= y < inputs@.len() && inputs@[y] == v;
                    assert(index@.contains(inputs@[y]));
                }
            }
            let info = match info_for(&c.variables, v) {
                Some(info) => info,
                None => {
                    proof {
                        assert(false);
                    }
                    return Err(QueryPlanningError::ExpectedPlannableConjunction);
                },
            };
            let kind = match kind_for(info.category) {
                Some(kind) => kind,
                None => {
                    proof {
                        let y = choose|y: int| 0 <= y < c.variables@.len() && c.variables@[y] == info;
                        assert(kind_of_category(c.variables@[y].category) is None);
                        assert(has_list(*c));
                    }
                    return Err(QueryPlanningError::UnimplementedLists);
                },
            };
            proof {
                assert(kind != VariableKind::Input);
            }
            let ghost old_index = index@;
            register_named(&mut g, &mut index, v, kind, info.expected_size, Ghost(ins), Ghost(sh));
            proof {
                assert forall|x: int| 0 <= x < inputs@.len() implies index@.contains(#[trigger] inputs@[x]) by {
                    let y = choose|y: int| 0 <= y < old_index.len() && old_index[y] == inputs@[x];
                    assert(index@[y] == inputs@[x]);
                }
                assert forall|x: int| 0 <= x < k + 1 implies index@.contains(#[trigger] shared@[x]) by {
                    if x < k {
                        let y = choose|y: int| 0 <= y < old_index.len() && old_index[y] == shared@[x];
                        assert(index@[y] == shared@[x]);
                    } else {
                        assert(index@[index@.len() - 1] == shared@[x]);
                    }
                }
            }
        }
        k = k + 1;
    }
    let mut k: usize = 0;
    while k < c.variables.len()
        invariant
            k <= c.variables@.len(),
            inputs@.len() < 0x1000_0000,
            shared@.len() < 0x1000_0000,
            ins == inputs@,
            sh == shared@,
            plannable(*c),
            !has_optional(*c),
            registered(g, index@, ins, sh),
            index@.len() <= inputs@.len() + shared@.len() + k,
            !has_list(*c),
            kinds_by_category(g, index@, *c, ins),
            g.num_patterns() == 0,
            forall|x: int| 0 <= x < inputs@.len() ==> index@.contains(#[trigger] inputs@[x]),
            forall|x: int| 0 <= x < shared@.len() ==> index@.contains(#[trigger] shared@[x]),
            forall|x: int| 0 <= x < k ==> index@.contains(#[trigger] c.variables@[x].variable),
        decreases c.variables@.len() - k,
    {
        let info = c.variables[k];
        let v = info.variable;
        if position_of(&index, v).is_none() {
            let kind = match kind_for(info.category) {
                Some(kind) => kind,
                None => {
                    proof {
                        assert(kind_of_category(c.variables@[k as int].category) is None);
                        assert(has_list(*c));
                    }
                    return Err(QueryPlanningError::UnimplementedLists);
                },
            };
            proof {
                if ins.contains(v) {
                    let y = choose|y: int| 0 <= y < inputs@.len() && inputs@[y] == v;
                    assert(index@.contains(inputs@[y]));
                }
                if sh.contains(v) {
                    let y = choose|y: int| 0 <= y < shared@.len() && shared@[y] == v;
                    assert(index@.contains(shared@[y]));
                }
                assert(kind != VariableKind::Input);
            }
            let ghost old_index = index@;
            register_named(&mut g, &mut index, v, kind, info.expected_size, Ghost(ins), Ghost(sh));
            proof {
                assert forall|x: int| 0 <= x < inputs@.len() implies index@.contains(#[trigger] inputs@[x]) by {
                    let y = choose|y: int| 0 <= y < old_index.len() && old_index[y] == inputs@[x];
                    assert(index@[y] == inputs@[x]);
                }
                assert forall|x: int| 0 <= x < shared@.len() implies index@.contains(#[trigger] shared@[x]) by {
                    let y = choose|y: int| 0 <= y < old_index.len() && old_index[y] == shared@[x];
                    assert(index@[y] == shared@[x]);
                }
                assert forall|x: int| 0 <= x < k + 1 implies index@.contains(#[trigger] c.variables@[x].variable) by {
                    if x < k {
                        let y = choose|y: int| 0 <= y < old_index.len() && old_index[y] == c.variables@[x].variable;
                        assert(index@[y] == c.variables@[x].variable);
                    } else {
                        assert(index@[index@.len() - 1] == c.variables@[x].variable);
                    }
                }
            }
        }
        k = k + 1;
    }
    proof {
        assert forall|v: u64|
            inputs@.contains(v) || shared@.contains(v) || info_of(c.variables@, v) implies #[trigger] index@.contains(v) by {
            if inputs@.contains(v) {
                let y = choose|y: int| 0 <= y < inputs@.len() && inputs@[y] == v;
                assert(index@.contains(inputs@[y]));
            } else if shared@.contains(v) {
                let y = choose|y: int| 0 <= y < shared@.len() && shared@[y] == v;
                assert(index@.contains(shared@[y]));
            } else {
                let y = choose|y: int| 0 <= y < c.variables@.len() && #[trigger] c.variables@[y].variable == v;
                assert(index@.contains(c.variables@[y].variable));
            }
        }
    }
    // the constraints
    let mut k: usize = 0;
    while k < c.constraints.len()
        invariant
            k <= c.constraints@.len(),
            ins == inputs@,
            sh == shared@,
            plannable(*c),
            registered(g, index@, ins, sh),
            kinds_by_category(g, index@, *c, ins),
            g.num_patterns() == k,
            forall|kk: int|
                0 <= kk < k ==> constraint_pattern(index@, c.constraints@[kk], #[trigger] g.patterns@[kk]),
            forall|v: u64|
                inputs@.contains(v) || shared@.contains(v) || info_of(c.variables@, v) ==> #[trigger] index@.contains(v),
        decreases c.constraints@.len() - k,
    {
        assert(constraint_mentions_known(c.variables@, c.constraints@[k as int]));
        match &c.constraints[k] {
            PlannableConstraint::Binary { kind, lhs, rhs, canonical_scan, canonical_seek, reverse_scan, reverse_seek } => {
                let (kind, lhs, rhs) = (*kind, *lhs, *rhs);
                let (canonical_scan, canonical_seek, reverse_scan, reverse_seek) = (
                    *canonical_scan,
                    *canonical_seek,
                    *reverse_scan,
                    *reverse_seek,
                );
                let l = match position_of(&index, lhs) {
                    Some(l) => l,
                    None => {
                        proof {
                            assert(index@.contains(lhs));
                        }
                        return Err(QueryPlanningError::ExpectedPlannableConjunction);
                    },
                };
                let r = match position_of(&index, rhs) {
                    Some(r) => r,
                    None => {
                        proof {
                            assert(index@.contains(rhs));
                        }
                        return Err(QueryPlanningError::ExpectedPlannableConjunction);
                    },
                };
                let ghost before = g;
                register_constraint(&mut g, kind, l, r, (canonical_scan, canonical_seek), (reverse_scan, reverse_seek));
                proof {
                    assert forall|kk: int| 0 <= kk < k + 1 implies constraint_pattern(
                        index@,
                        c.constraints@[kk],
                        #[trigger] g.patterns@[kk],
                    ) by {
                        if kk < k {
                            assert(g.patterns@[kk] == before.patterns@[kk]);
                        } else {
                            assert(g.patterns@[kk].variables@ == seq![l, r]);
                        }
                    }
                }
            },
            PlannableConstraint::Comparison { lhs, rhs, comparator, cost } => {
                let (lhs, rhs, comparator, cost) = (*lhs, *rhs, *comparator, *cost);
                let li = match lhs {
                    Some(v) => match position_of(&index, v) {
                        Some(i) => ComparisonInput::Variable(i),
                        None => {
                            proof {
                                assert(index@.contains(v));
                            }
                            return Err(QueryPlanningError::ExpectedPlannableConjunction);
                        },
                    },
                    None => ComparisonInput::Fixed,
                };
                let ri = match rhs {
                    Some(v) => match position_of(&index, v) {
                        Some(i) => ComparisonInput::Variable(i),
                        None => {
                            proof {
                                assert(index@.contains(v));
                            }
                            return Err(QueryPlanningError::ExpectedPlannableConjunction);
                        },
                    },
                    None => ComparisonInput::Fixed,
                };
                let ghost before = g;
                register_comparison(&mut g, li, ri, comparator, cost);
                proof {
                    assert(registered(g, index@, ins, sh));
                    assert forall|kk: int| 0 <= kk < k + 1 implies constraint_pattern(
                        index@,
                        c.constraints@[kk],
                        #[trigger] g.patterns@[kk],
                    ) by {
                        if kk < k {
                            assert(g.patterns@[kk] == before.patterns@[kk]);
                        } else {
                            let pv = g.patterns@[kk];
                            assert forall|v: usize| v < index@.len() implies (#[trigger] pv.references(v) <==> (lhs
                                == Some(index@[v as int]) || rhs == Some(index@[v as int]))) by {
                                if let Some(lv) = lhs {
                                    if index@[v as int] == lv {
                                        let pos = choose|pos: usize| li == ComparisonInput::Variable(pos);
                                        assert(index@[pos as int] == lv);
                                    }
                                }
                                if let Some(rv) = rhs {
                                    if index@[v as int] == rv {
                                        let pos = choose|pos: usize| ri == ComparisonInput::Variable(pos);
                                        assert(index@[pos as int] == rv);
                                    }
                                }
                            }
                        }
                    }
                }
            },
            PlannableConstraint::Is { lhs, rhs, cost } => {
                let mut vars: Vec<u64> = Vec::new();
                vars.push(*lhs);
                vars.push(*rhs);
                let ids = ids_of(&index, &vars);
                proof {
                    assert(vars@ == seq![*lhs, *rhs]);
                    assert(ids@[0] != ids@[1]);
                }
                let ghost before = g;
                register_is(&mut g, ids[0], ids[1], *cost);
                proof {
                    assert(g.patterns@[k as int].variables@ =~= ids@);
                    assert forall|kk: int| 0 <= kk < k + 1 implies constraint_pattern(
                        index@,
                        c.constraints@[kk],
                        #[trigger] g.patterns@[kk],
                    ) by {
                        if kk < k {
                            assert(g.patterns@[kk] == before.patterns@[kk]);
                        }
                    }
                }
            },
            PlannableConstraint::Expression { output, inputs, cost } => {
                let mut vars: Vec<u64> = Vec::new();
                vars.push(*output);
                let mut m: usize = 0;
                while m < inputs.len()
                    invariant
                        m <= inputs@.len(),
                        vars@ == seq![*output] + inputs@.take(m as int),
                    decreases inputs@.len() - m,
                {
                    vars.push(inputs[m]);
                    proof {
                        assert(vars@ =~= seq![*output] + inputs@.take(m + 1));
                    }
                    m = m + 1;
                }
                proof {
                    assert(inputs@.take(m as int) =~= inputs@);
                    assert forall|v: u64| vars@.contains(v) implies index@.contains(v) by {
                        let x = choose|x: int| 0 <= x < vars@.len() && vars@[x] == v;
                        if x > 0 {
                            assert(inputs@[x - 1] == v);
                        }
                    }
                }
                let ids = ids_of(&index, &vars);
                let mut in_ids: Vec<usize> = Vec::new();
                let mut m: usize = 1;
                while m < ids.len()
                    invariant
                        1 <= m <= ids@.len(),
                        in_ids@ == ids@.subrange(1, m as int),
                    decreases ids@.len() - m,
                {
                    in_ids.push(ids[m]);
                    proof {
                        assert(in_ids@ =~= ids@.subrange(1, m + 1));
                    }
                    m = m + 1;
                }
                let ghost before = g;
                register_expression(&mut g, ids[0], in_ids, *cost);
                proof {
                    assert(g.patterns@[k as int].variables@ =~= ids@);
                    assert forall|kk: int| 0 <= kk < k + 1 implies constraint_pattern(
                        index@,
                        c.constraints@[kk],
                        #[trigger] g.patterns@[kk],
                    ) by {
                        if kk < k {
                            assert(g.patterns@[kk] == before.patterns@[kk]);
                        }
                    }
                }
            },
            PlannableConstraint::FunctionCall { assigned, arguments, cost } => {
                let a = ids_of(&index, assigned);
                let b = ids_of(&index, arguments);
                let ghost before = g;
                let ghost bv = b@;
                register_function_call(&mut g, &a, b, *cost);
                proof {
                    assert forall|kk: int| 0 <= kk < k + 1 implies constraint_pattern(
                        index@,
                        c.constraints@[kk],
                        #[trigger] g.patterns@[kk],
                    ) by {
                        if kk < k {
                            assert(g.patterns@[kk] == before.patterns@[kk]);
                        } else {
                            let pv = g.patterns@[kk];
                            assert(pv.variables@ == a@ + bv);
                            assert forall|i: int| 0 <= i < pv.variables@.len() implies #[trigger] pv.variables@[i]
                                < index@.len() && index@[pv.variables@[i] as int] == (assigned@ + arguments@)[i] by {
                                if i < a@.len() {
                                    assert(pv.variables@[i] == a@[i]);
                                } else {
                                    assert(pv.variables@[i] == bv[i - a@.len()]);
                                }
                            }
                        }
                    }
                }
            },
            PlannableConstraint::LinksDeduplication { variables, cost } => {
                let ids = ids_of(&index, variables);
                let ghost before = g;
                let ghost iv = ids@;
                register_check_pattern(&mut g, false, ids, *cost);
                proof {
                    assert forall|kk: int| 0 <= kk < k + 1 implies constraint_pattern(
                        index@,
                        c.constraints@[kk],
                        #[trigger] g.patterns@[kk],
                    ) by {
                        if kk < k {
                            assert(g.patterns@[kk] == before.patterns@[kk]);
                        }
                    }
                }
            },
            PlannableConstraint::Unsatisfiable { cost } => {
                let ghost before = g;
                register_check_pattern(&mut g, true, Vec::new(), *cost);
                proof {
                    assert forall|kk: int| 0 <= kk < k + 1 implies constraint_pattern(
                        index@,
                        c.constraints@[kk],
                        #[trigger] g.patterns@[kk],
                    ) by {
                        if kk < k {
                            assert(g.patterns@[kk] == before.patterns@[kk]);
                        }
                    }
                }
            },
        }
        k = k + 1;
    }
    // the negations, over the variables they share with this scope
    let mut j: usize = 0;
    while j < negation_vars.len()
        invariant
            j <= negation_vars@.len(),
            negation_vars@.len() == negation_costs@.len(),
            negation_vars@.len() <= c.nested@.len(),
            plannable(*c),
            registered(g, index@, ins, sh),
            g.num_patterns() <= c.constraints@.len() + j,
            kinds_by_category(g, index@, *c, ins),
            patterns_follow(g, index@, *c),
            forall|v: u64|
                inputs@.contains(v) || shared@.contains(v) || info_of(c.variables@, v) ==> #[trigger] index@.contains(v),
        decreases negation_vars@.len() - j,
    {
        let vars = &negation_vars[j];
        let mut ids: Vec<usize> = Vec::new();
        let mut required: Vec<usize> = Vec::new();
        let mut m: usize = 0;
        while m < vars.len()
            invariant
                m <= vars@.len(),
                registered(g, index@, ins, sh),
                all_below(ids@, g.num_vars()),
                all_below(required@, g.num_vars()),
            decreases vars@.len() - m,
        {
            if let Some(id) = position_of(&index, vars[m]) {
                ids.push(id);
                required.push(id);
            }
            m = m + 1;
        }
        let ghost before = g;
        match register_nested(&mut g, NestedKind::Negation, ids, required, negation_costs[j]) {
            Ok(_) => {
                proof {
                    assert forall|kk: int| 0 <= kk < c.constraints@.len() implies constraint_pattern(
                        index@,
                        c.constraints@[kk],
                        #[trigger] g.patterns@[kk],
                    ) by {
                        assert(g.patterns@[kk] == before.patterns@[kk]);
                    }
                }
            },
            Err(_) => {
                return Err(QueryPlanningError::UnimplementedOptionals);
            },
        }
        j = j + 1;
    }
    Ok((g, index, nested))
}

} // verus!
