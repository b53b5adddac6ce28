use match_planner::cost::Cost;
use match_planner::graph::{
    ConstraintKind, Graph, PatternKind, PatternVertex, VariableKind, VariableVertex,
};
use match_planner::graph::{CostMetaData, Direction};
use match_planner::lower::{lower, Inputs, StepKind};
use match_planner::plan::{beam_search_plan, plan_conjunction, CompletePlan, PlannedStep, QueryPlanningError, Tally, VertexId};

fn cost(c: u64) -> Cost {
    Cost { cost: c, io_ratio: 1000 }
}

fn var(g: &mut Graph, kind: VariableKind) -> usize {
    g.push_variable(VariableVertex { kind, expected_size: 10_000 })
}

fn constraint(kind: ConstraintKind, lhs: usize, rhs: usize, canonical: u64, reverse: u64) -> PatternVertex {
    PatternVertex {
        kind: PatternKind::Constraint(kind),
        variables: vec![lhs, rhs],
        required: vec![],
        canonical_scan: Cost { cost: canonical, io_ratio: 5000 },
        canonical_seek: Cost { cost: canonical / 2, io_ratio: 5000 },
        reverse_scan: Cost { cost: reverse, io_ratio: 5000 },
        reverse_seek: Cost { cost: reverse / 2, io_ratio: 5000 },
    }
}

fn pattern(kind: PatternKind, variables: Vec<usize>, required: Vec<usize>) -> PatternVertex {
    PatternVertex {
        kind,
        variables,
        required,
        canonical_scan: cost(500),
        canonical_seek: cost(50),
        reverse_scan: cost(500),
        reverse_seek: cost(50),
    }
}

fn position(plan: &CompletePlan, v: VertexId) -> usize {
    let found: Vec<usize> =
        plan.vertex_ordering.iter().enumerate().filter(|(_, x)| **x == v).map(|(i, _)| i).collect();
    assert_eq!(found.len(), 1, "{:?} should appear exactly once", v);
    found[0]
}

/// `person has name N, has age A`.
fn has_name_has_age() -> (Graph, usize, usize, usize) {
    let mut g = Graph::new();
    let person = var(&mut g, VariableKind::Thing);
    let name = var(&mut g, VariableKind::Thing);
    let age = var(&mut g, VariableKind::Thing);
    g.push_pattern(constraint(ConstraintKind::Has, person, name, 3000, 9000));
    g.push_pattern(constraint(ConstraintKind::Has, person, age, 3000, 9000));
    (g, person, name, age)
}

#[test]
fn every_vertex_planned_once() {
    let (g, person, name, age) = has_name_has_age();
    let plan = beam_search_plan(&g).unwrap();
    let p0 = position(&plan, VertexId::Pattern(0));
    let p1 = position(&plan, VertexId::Pattern(1));
    for v in [person, name, age] {
        let at = position(&plan, VertexId::Variable(v));
        assert!(at > p0.min(p1));
    }
    assert_eq!(plan.vertex_ordering.len(), 5);
}

#[test]
fn has_constraints_intersect_on_owner() {
    let (g, person, _, _) = has_name_has_age();
    let plan = beam_search_plan(&g).unwrap();
    let joined: Vec<_> = plan.steps.iter().filter(|s| s.members.len() >= 2).collect();
    assert_eq!(joined.len(), 1);
    assert_eq!(joined[0].join_var, Some(person));
    assert_eq!(joined[0].members.len(), 2);
}

#[test]
fn no_patterns_plans_inputs_only() {
    let mut g = Graph::new();
    let a = var(&mut g, VariableKind::Input);
    let _b = var(&mut g, VariableKind::Thing);
    let c = var(&mut g, VariableKind::Input);
    let plan = beam_search_plan(&g).unwrap();
    assert_eq!(plan.vertex_ordering, vec![VertexId::Variable(a), VertexId::Variable(c)]);
    assert_eq!(plan.cumulative_cost, Cost { cost: 0, io_ratio: 1000 });
    assert!(plan.steps.is_empty());
}

#[test]
fn unsatisfiable_requirement_is_an_error() {
    let mut g = Graph::new();
    let x = var(&mut g, VariableKind::Value);
    let y = var(&mut g, VariableKind::Value);
    // each expression needs the other's output first
    g.push_pattern(pattern(PatternKind::Expression, vec![x, y], vec![y]));
    g.push_pattern(pattern(PatternKind::Expression, vec![y, x], vec![x]));
    let result = beam_search_plan(&g);
    assert!(matches!(result, Err(QueryPlanningError::ExpectedPlannableConjunction)));
}

#[test]
fn expression_waits_for_its_arguments() {
    let mut g = Graph::new();
    let person = var(&mut g, VariableKind::Thing);
    let a1 = var(&mut g, VariableKind::Thing);
    let a2 = var(&mut g, VariableKind::Value);
    let p = g.push_pattern(pattern(PatternKind::Expression, vec![a2, a1], vec![a1]));
    let q = g.push_pattern(constraint(ConstraintKind::Has, person, a1, 3000, 9000));
    let plan = beam_search_plan(&g).unwrap();
    assert!(position(&plan, VertexId::Pattern(q)) < position(&plan, VertexId::Pattern(p)));
    assert!(position(&plan, VertexId::Variable(a1)) < position(&plan, VertexId::Pattern(p)));
}

#[test]
fn planning_twice_gives_the_same_plan() {
    let (g, _, _, _) = has_name_has_age();
    let a = beam_search_plan(&g).unwrap();
    let b = beam_search_plan(&g).unwrap();
    assert_eq!(a.vertex_ordering, b.vertex_ordering);
    assert_eq!(a.pattern_metadata, b.pattern_metadata);
    assert_eq!(a.cumulative_cost, b.cumulative_cost);
}

#[test]
fn lowering_makes_one_intersection_on_the_owner() {
    let (g, person, _, _) = has_name_has_age();
    let plan = beam_search_plan(&g).unwrap();
    let steps = lower(&g, &plan);
    assert_eq!(steps.len(), plan.steps.len());
    let intersections: Vec<_> = steps.iter().filter(|s| s.kind == StepKind::Intersection).collect();
    assert_eq!(intersections.len(), 1);
    assert_eq!(intersections[0].sort_variable, Some(person));
    assert_eq!(intersections[0].patterns.len(), 2);
    // the owner is produced by the step, so both lookups start from it unbound
    for i in &intersections[0].instructions {
        assert_eq!(i.inputs, Inputs::NoInputs);
        assert_eq!(i.direction, Direction::Canonical);
    }
    let again = lower(&g, &plan);
    assert_eq!(again.len(), steps.len());
    for (a, b) in steps.iter().zip(again.iter()) {
        assert_eq!((a.kind, a.sort_variable, &a.patterns, &a.checks), (b.kind, b.sort_variable, &b.patterns, &b.checks));
    }
}

#[test]
fn bound_check_is_stashed_on_the_step() {
    let (mut g, _, name, age) = has_name_has_age();
    let cmp = g.push_pattern(pattern(PatternKind::Comparison, vec![name, age], vec![name, age]));
    let plan = beam_search_plan(&g).unwrap();
    let steps = lower(&g, &plan);
    let holding: Vec<_> = steps.iter().filter(|s| s.checks.contains(&cmp) || s.patterns.contains(&cmp)).collect();
    assert_eq!(holding.len(), 1);
    assert!(holding[0].checks.contains(&cmp));
    assert!(holding[0].kind == StepKind::Intersection || holding[0].kind == StepKind::Check);
}

#[test]
fn bound_side_becomes_an_input() {
    let mut g = Graph::new();
    let person = var(&mut g, VariableKind::Input);
    let name = var(&mut g, VariableKind::Thing);
    g.push_pattern(constraint(ConstraintKind::Has, person, name, 3000, 9000));
    let plan = beam_search_plan(&g).unwrap();
    let steps = lower(&g, &plan);
    assert_eq!(steps.len(), 1);
    assert_eq!(steps[0].instructions[0].inputs, Inputs::Single(person));
    assert_eq!(steps[0].instructions[0].direction, Direction::Canonical);
    assert_eq!(steps[0].sort_variable, Some(name));
}

#[test]
fn bound_right_side_runs_in_reverse() {
    let mut g = Graph::new();
    let person = var(&mut g, VariableKind::Thing);
    let name = var(&mut g, VariableKind::Input);
    g.push_pattern(constraint(ConstraintKind::Has, person, name, 3000, 9000));
    let plan = beam_search_plan(&g).unwrap();
    let steps = lower(&g, &plan);
    assert_eq!(steps[0].instructions[0].inputs, Inputs::Single(name));
    assert_eq!(steps[0].instructions[0].direction, Direction::Reverse);
    assert_eq!(steps[0].sort_variable, Some(person));
}

/// A chain of relations `x0 - x1 - ... - xn` with an attribute on every other vertex.
fn chain(n: usize) -> Graph {
    let mut g = Graph::new();
    let vars: Vec<usize> = (0..=n).map(|_| var(&mut g, VariableKind::Thing)).collect();
    for i in 0..n {
        let cost = 1000 + ((i as u64 * 7919) % 13) * 500;
        g.push_pattern(constraint(ConstraintKind::Links, vars[i], vars[i + 1], cost, cost + 250));
    }
    for i in (0..=n).step_by(2) {
        let attr = var(&mut g, VariableKind::Thing);
        g.push_pattern(constraint(ConstraintKind::Has, vars[i], attr, 2000, 6000));
    }
    g
}

#[test]
fn larger_graph_is_planned_completely() {
    let g = chain(12);
    let plan = beam_search_plan(&g).unwrap();
    let n_patterns = g.patterns.len();
    let n_vars = g.variables.len();
    assert_eq!(plan.vertex_ordering.len(), n_patterns + n_vars);
    for p in 0..n_patterns {
        position(&plan, VertexId::Pattern(p));
    }
    for v in 0..n_vars {
        let at = position(&plan, VertexId::Variable(v));
        let justified = plan.vertex_ordering[..at]
            .iter()
            .any(|x| matches!(x, VertexId::Pattern(p) if g.patterns[*p].variables.contains(&v)));
        assert!(justified, "variable {} comes before every pattern that binds it", v);
    }
    for step in &plan.steps {
        if step.members.len() >= 2 {
            let j = step.join_var.unwrap();
            assert!(step.members.iter().all(|m| g.patterns[*m].variables.contains(&j)));
        }
    }
    let again = beam_search_plan(&g).unwrap();
    assert_eq!(plan.vertex_ordering, again.vertex_ordering);
}

#[test]
fn conjunction_statistics_count_thing_variables() {
    let (g, _, _, _) = has_name_has_age();
    let planned = plan_conjunction(&g).unwrap();
    assert_eq!(planned.planner_statistics.var_count, Tally { count: 3, size: 30_000 });
    assert_eq!(planned.planner_statistics.has_count, Tally { count: 2, size: 20_000 });
    assert_eq!(planned.planner_statistics.links_count, Tally { count: 0, size: 0 });
    assert_eq!(planned.planner_statistics.query_cost, planned.plan.cumulative_cost);
}

#[test]
fn bound_constraint_member_lowers_as_check() {
    let mut g = Graph::new();
    let a = var(&mut g, VariableKind::Input);
    let b = var(&mut g, VariableKind::Input);
    let p = g.push_pattern(constraint(ConstraintKind::Has, a, b, 3000, 9000));
    let plan = CompletePlan {
        vertex_ordering: vec![VertexId::Variable(a), VertexId::Variable(b), VertexId::Pattern(p)],
        input_count: 2,
        pattern_metadata: vec![CostMetaData::Direction(Direction::Canonical)],
        steps: vec![PlannedStep { members: vec![p], join_var: None, checks: vec![] }],
        cumulative_cost: cost(10),
    };
    let steps = lower(&g, &plan);
    assert_eq!(steps[0].kind, StepKind::Check);
    assert!(steps[0].patterns.is_empty());
    assert_eq!(steps[0].checks, vec![p]);
}
