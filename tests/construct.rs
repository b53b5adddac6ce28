use match_planner::construct::{
    register_check_pattern, register_comparison, register_constraint, register_expression, register_function_call,
    register_input, register_is, register_nested, register_variable, make_graph, Comparator, NestedKind,
    PlannableConjunction, PlannableConstraint, PlannableNested, VariableCategory, VariableInfo,
};
use match_planner::lower::{lower_disjunction, Inputs};
use match_planner::cost::Cost;
use match_planner::graph::{ComparisonInput, ConstraintKind, Graph, PatternKind, VariableKind};
use match_planner::plan::{beam_search_plan, plan_disjunction, PlannerStatistics, QueryPlanningError, Tally};

fn c(cost: u64) -> Cost {
    Cost { cost, io_ratio: 1000 }
}

#[test]
fn categories_map_to_kinds() {
    let mut g = Graph::new();
    assert_eq!(register_variable(&mut g, VariableCategory::RoleType, 5), Ok(0));
    assert_eq!(register_variable(&mut g, VariableCategory::Object, 5), Ok(1));
    assert_eq!(register_variable(&mut g, VariableCategory::Value, 5), Ok(2));
    assert_eq!(register_input(&mut g, 5), 3);
    let kinds: Vec<VariableKind> = g.variables.iter().map(|v| v.kind).collect();
    assert_eq!(kinds, vec![VariableKind::Type, VariableKind::Thing, VariableKind::Value, VariableKind::Input]);
}

#[test]
fn list_variables_are_rejected() {
    let mut g = Graph::new();
    assert_eq!(register_variable(&mut g, VariableCategory::ThingList, 5), Err(QueryPlanningError::UnimplementedLists));
    assert!(g.variables.is_empty());
    assert!(g.bounds.is_empty());
}

#[test]
fn comparisons_imprint_bounds() {
    let mut g = Graph::new();
    let x = register_variable(&mut g, VariableCategory::Value, 5).unwrap();
    let y = register_variable(&mut g, VariableCategory::Value, 5).unwrap();
    let p = register_comparison(&mut g, ComparisonInput::Variable(x), ComparisonInput::Variable(y), Comparator::Less, c(1));
    assert_eq!(g.patterns[p].kind, PatternKind::Comparison);
    assert_eq!(g.patterns[p].variables, vec![x, y]);
    assert_eq!(g.bounds[x].upper, vec![ComparisonInput::Variable(y)]);
    assert_eq!(g.bounds[y].lower, vec![ComparisonInput::Variable(x)]);
    assert!(g.bounds[y].upper.is_empty());
    register_comparison(&mut g, ComparisonInput::Variable(x), ComparisonInput::Fixed, Comparator::Equal, c(1));
    assert_eq!(g.bounds[x].equal, vec![ComparisonInput::Fixed]);
    register_comparison(&mut g, ComparisonInput::Fixed, ComparisonInput::Variable(y), Comparator::GreaterOrEqual, c(1));
    assert_eq!(g.bounds[y].upper, vec![ComparisonInput::Fixed]);
    let q = register_comparison(&mut g, ComparisonInput::Variable(x), ComparisonInput::Fixed, Comparator::Like, c(1));
    assert_eq!(g.patterns[q].variables, vec![x]);
    assert_eq!(g.bounds[x].equal.len() + g.bounds[x].upper.len() + g.bounds[x].lower.len(), 2);
}

#[test]
fn is_links_both_ways() {
    let mut g = Graph::new();
    let x = register_variable(&mut g, VariableCategory::Thing, 5).unwrap();
    let y = register_variable(&mut g, VariableCategory::Thing, 5).unwrap();
    let p = register_is(&mut g, x, y, c(1));
    assert_eq!(g.patterns[p].kind, PatternKind::Is);
    assert_eq!(g.bounds[x].is, vec![y]);
    assert_eq!(g.bounds[y].is, vec![x]);
}

#[test]
fn expressions_and_calls_bind_outputs() {
    let mut g = Graph::new();
    let a = register_variable(&mut g, VariableCategory::Value, 5).unwrap();
    let b = register_variable(&mut g, VariableCategory::Value, 5).unwrap();
    let out = register_variable(&mut g, VariableCategory::Value, 5).unwrap();
    let e = register_expression(&mut g, out, vec![a, b], c(5));
    assert_eq!(g.patterns[e].variables, vec![out, a, b]);
    assert_eq!(g.patterns[e].required, vec![a, b]);
    assert_eq!(g.bounds[out].binding, Some(e));
    let r1 = register_variable(&mut g, VariableCategory::Thing, 5).unwrap();
    let r2 = register_variable(&mut g, VariableCategory::Thing, 5).unwrap();
    let f = register_function_call(&mut g, &vec![r1, r2], vec![a], c(5));
    assert_eq!(g.patterns[f].variables, vec![r1, r2, a]);
    assert_eq!(g.bounds[r1].binding, Some(f));
    assert_eq!(g.bounds[r2].binding, Some(f));
    assert_eq!(g.bounds[a].binding, None);
}

#[test]
fn optional_patterns_are_rejected() {
    let mut g = Graph::new();
    let x = register_variable(&mut g, VariableCategory::Thing, 5).unwrap();
    assert_eq!(register_nested(&mut g, NestedKind::Optional, vec![x], vec![], c(1)), Err(QueryPlanningError::UnimplementedOptionals));
    assert!(g.patterns.is_empty());
    assert_eq!(register_nested(&mut g, NestedKind::Negation, vec![x], vec![x], c(1)), Ok(0));
    assert_eq!(g.patterns[0].kind, PatternKind::Negation);
}

#[test]
fn negation_runs_after_its_inputs() {
    let mut g = Graph::new();
    let person = register_variable(&mut g, VariableCategory::Thing, 5).unwrap();
    let neg = register_nested(&mut g, NestedKind::Negation, vec![person], vec![person], c(100)).unwrap();
    let isa = register_constraint(&mut g, ConstraintKind::Isa, person, person, (c(50), c(5)), (c(50), c(5)));
    let plan = beam_search_plan(&g).unwrap();
    let pos = |x| plan.vertex_ordering.iter().position(|v| *v == x).unwrap();
    use_order(pos(match_planner::plan::VertexId::Pattern(isa)), pos(match_planner::plan::VertexId::Pattern(neg)));
}

fn use_order(first: usize, second: usize) {
    assert!(first < second);
}

#[test]
fn disjunction_branches_are_planned_and_costed_in_parallel() {
    let mut a = Graph::new();
    let x = register_variable(&mut a, VariableCategory::Thing, 5).unwrap();
    let y = register_variable(&mut a, VariableCategory::Thing, 5).unwrap();
    register_constraint(&mut a, ConstraintKind::Links, x, y, (c(300), c(30)), (c(900), c(90)));
    let mut b = Graph::new();
    let x2 = register_variable(&mut b, VariableCategory::Thing, 5).unwrap();
    let n = register_variable(&mut b, VariableCategory::Thing, 5).unwrap();
    register_constraint(&mut b, ConstraintKind::Has, x2, n, (c(200), c(20)), (c(800), c(80)));
    let d = plan_disjunction(vec![4, 7], &vec![a, b]).unwrap();
    assert_eq!(d.branch_ids, vec![4, 7]);
    assert_eq!(d.branches.len(), 2);
    let sum: u64 = d.branches.iter().map(|p| p.cumulative_cost.cost).sum();
    assert_eq!(d.cost.cost, sum);
    assert_eq!(d.cost.io_ratio, 2000);
}

#[test]
fn statistics_accumulate() {
    let mut s = PlannerStatistics::new();
    s.increment_var(500);
    s.increment_var(700);
    s.increment_has(3);
    s.increment_links(u64::MAX);
    s.increment_links(5);
    s.finalize(Cost { cost: 9, io_ratio: 1000 });
    assert_eq!(s.var_count, Tally { count: 2, size: 1200 });
    assert_eq!(s.has_count, Tally { count: 1, size: 3 });
    assert_eq!(s.links_count, Tally { count: 2, size: u64::MAX });
    assert_eq!(s.query_cost, Cost { cost: 9, io_ratio: 1000 });
}

#[test]
fn with_inputs_marks_variables_bound() {
    let mut g = Graph::new();
    let x = register_variable(&mut g, VariableCategory::Thing, 5).unwrap();
    let y = register_variable(&mut g, VariableCategory::Thing, 7).unwrap();
    g.with_inputs(&vec![y, 99]);
    assert_eq!(g.variables[x].kind, VariableKind::Thing);
    assert_eq!(g.variables[y].kind, VariableKind::Input);
    assert_eq!(g.variables[y].expected_size, 7);
    assert_eq!(g.input_variables(), vec![y]);
}

#[test]
fn check_patterns_need_their_variables() {
    let mut g = Graph::new();
    let r1 = register_variable(&mut g, VariableCategory::Thing, 5).unwrap();
    let r2 = register_variable(&mut g, VariableCategory::Thing, 5).unwrap();
    let d = register_check_pattern(&mut g, false, vec![r1, r2], c(1));
    assert_eq!(g.patterns[d].kind, PatternKind::LinksDeduplication);
    assert_eq!(g.patterns[d].required, vec![r1, r2]);
    let u = register_check_pattern(&mut g, true, vec![r1], c(1));
    assert_eq!(g.patterns[u].kind, PatternKind::Unsatisfiable);
    assert!(g.patterns[u].variables.is_empty());
}

#[test]
fn disjunction_branches_lower_separately() {
    let mut a = Graph::new();
    let x = register_variable(&mut a, VariableCategory::Thing, 5).unwrap();
    let y = register_variable(&mut a, VariableCategory::Thing, 5).unwrap();
    register_constraint(&mut a, ConstraintKind::Links, x, y, (c(300), c(30)), (c(900), c(90)));
    let mut b = Graph::new();
    let x2 = register_input(&mut b, 5);
    let n = register_variable(&mut b, VariableCategory::Thing, 5).unwrap();
    register_constraint(&mut b, ConstraintKind::Has, x2, n, (c(200), c(20)), (c(800), c(80)));
    let graphs = vec![a, b];
    let d = plan_disjunction(vec![0, 1], &graphs).unwrap();
    let lowered = lower_disjunction(&graphs, &d);
    assert_eq!(lowered.len(), 2);
    assert_eq!(lowered[0].len(), d.branches[0].steps.len());
    assert_eq!(lowered[1][0].instructions[0].inputs, Inputs::Single(x2));
}

fn info(variable: u64, category: VariableCategory) -> VariableInfo {
    VariableInfo { variable, category, expected_size: 5000 }
}

fn has(lhs: u64, rhs: u64) -> PlannableConstraint {
    PlannableConstraint::Binary {
        kind: ConstraintKind::Has,
        lhs,
        rhs,
        canonical_scan: c(300),
        canonical_seek: c(30),
        reverse_scan: c(900),
        reverse_seek: c(90),
    }
}

/// `$person isa person; not { $person has name $name; };` with person = 1, name = 2
fn person_without_name() -> PlannableConjunction {
    let negated = PlannableConjunction {
        variables: vec![info(1, VariableCategory::Thing), info(2, VariableCategory::Attribute)],
        constraints: vec![has(1, 2)],
        nested: vec![],
    };
    PlannableConjunction {
        variables: vec![info(1, VariableCategory::Thing)],
        constraints: vec![PlannableConstraint::Binary {
            kind: ConstraintKind::Isa,
            lhs: 1,
            rhs: 1,
            canonical_scan: c(100),
            canonical_seek: c(10),
            reverse_scan: c(100),
            reverse_seek: c(10),
        }],
        nested: vec![PlannableNested::Negation(negated)],
    }
}

#[test]
fn negations_are_planned_before_the_outer_graph() {
    let (g, index, nested) = make_graph(&person_without_name(), &vec![], &vec![]).unwrap();
    assert_eq!(index, vec![1]);
    assert_eq!(nested.len(), 1);
    // inside the negation the person is an input
    let inner = &nested[0].graph;
    assert_eq!(inner.input_variables().len(), 1);
    assert_eq!(nested[0].plan.vertex_ordering.len(), inner.variables.len() + inner.patterns.len());
    let kinds: Vec<PatternKind> = g.patterns.iter().map(|p| p.kind).collect();
    assert_eq!(kinds, vec![PatternKind::Constraint(ConstraintKind::Isa), PatternKind::Negation]);
    assert_eq!(g.patterns[1].variables, vec![0]);
    assert!(beam_search_plan(&g).is_ok());
}

#[test]
fn variables_register_inputs_then_shared_then_local() {
    let conj = PlannableConjunction {
        variables: vec![info(7, VariableCategory::Value), info(5, VariableCategory::Thing), info(9, VariableCategory::Type)],
        constraints: vec![has(5, 7)],
        nested: vec![],
    };
    let (g, index, _) = make_graph(&conj, &vec![9, 9], &vec![5]).unwrap();
    assert_eq!(index, vec![9, 5, 7]);
    let kinds: Vec<VariableKind> = g.variables.iter().map(|v| v.kind).collect();
    assert_eq!(kinds, vec![VariableKind::Input, VariableKind::Thing, VariableKind::Value]);
    assert_eq!(g.patterns[0].variables, vec![1, 2]);
}

#[test]
fn nested_optionals_and_lists_are_rejected() {
    let inner = PlannableConjunction { variables: vec![], constraints: vec![], nested: vec![] };
    let deep = PlannableConjunction {
        variables: vec![],
        constraints: vec![],
        nested: vec![PlannableNested::Optional(inner)],
    };
    let outer = PlannableConjunction {
        variables: vec![info(1, VariableCategory::ThingList)],
        constraints: vec![],
        nested: vec![PlannableNested::Negation(deep)],
    };
    assert!(matches!(make_graph(&outer, &vec![], &vec![]), Err(QueryPlanningError::UnimplementedOptionals)));
    let listy = PlannableConjunction {
        variables: vec![info(1, VariableCategory::ThingList)],
        constraints: vec![],
        nested: vec![],
    };
    assert!(matches!(make_graph(&listy, &vec![], &vec![]), Err(QueryPlanningError::UnimplementedLists)));
}

#[test]
fn make_graph_registers_every_constraint_kind() {
    // person 1, age 2, doubled 3, result 4, relations 5 and 6
    let conj = PlannableConjunction {
        variables: vec![
            info(1, VariableCategory::Thing),
            info(2, VariableCategory::Attribute),
            info(3, VariableCategory::Value),
            info(4, VariableCategory::Value),
            info(5, VariableCategory::Thing),
            info(6, VariableCategory::Thing),
        ],
        constraints: vec![
            has(1, 2),
            PlannableConstraint::Expression { output: 3, inputs: vec![2], cost: c(5) },
            PlannableConstraint::FunctionCall { assigned: vec![4], arguments: vec![3, 2], cost: c(5) },
            PlannableConstraint::Is { lhs: 5, rhs: 6, cost: c(1) },
            PlannableConstraint::LinksDeduplication { variables: vec![5, 6], cost: c(1) },
            PlannableConstraint::Unsatisfiable { cost: c(1) },
        ],
        nested: vec![],
    };
    let (g, index, _) = make_graph(&conj, &vec![], &vec![]).unwrap();
    assert_eq!(index, vec![1, 2, 3, 4, 5, 6]);
    let kinds: Vec<PatternKind> = g.patterns.iter().map(|p| p.kind).collect();
    assert_eq!(
        kinds,
        vec![
            PatternKind::Constraint(ConstraintKind::Has),
            PatternKind::Expression,
            PatternKind::FunctionCall,
            PatternKind::Is,
            PatternKind::LinksDeduplication,
            PatternKind::Unsatisfiable,
        ]
    );
    assert_eq!(g.patterns[1].variables, vec![2, 1]);
    assert_eq!(g.bounds[2].binding, Some(1));
    assert_eq!(g.patterns[2].variables, vec![3, 2, 1]);
    assert_eq!(g.bounds[3].binding, Some(2));
    assert_eq!(g.bounds[4].is, vec![5]);
    let kinds: Vec<VariableKind> = g.variables.iter().map(|v| v.kind).collect();
    assert_eq!(kinds[1], VariableKind::Thing);
    assert_eq!(kinds[2], VariableKind::Value);
}
