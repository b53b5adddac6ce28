use match_planner::pattern::{
    BlockBuilderContext, Conjunction, Disjunction, DisjunctionBuilder, Negation, NestedPattern, Optional,
};

fn three_branches() -> Disjunction {
    let mut builder = DisjunctionBuilder::new(BlockBuilderContext::new(), 0, Disjunction::new());
    for _ in 0..3 {
        builder.add_conjunction();
    }
    builder.disjunction
}

#[test]
fn builder_gives_fresh_scopes_and_branch_ids() {
    let d = three_branches();
    let scopes: Vec<u64> = d.conjunctions().iter().map(|c| c.scope_id()).collect();
    assert_eq!(scopes, vec![1, 2, 3]);
    let pairs: Vec<(u64, u64)> = d.conjunctions_by_branch_id().into_iter().map(|(id, c)| (id, c.scope_id)).collect();
    assert_eq!(pairs, vec![(0, 1), (1, 2), (2, 3)]);
}

#[test]
fn unsatisfiable_branches_are_removed_with_their_ids() {
    let mut d = three_branches();
    d.optimise_away_unsatisfiable_branches(vec![2]);
    let pairs: Vec<(u64, u64)> = d.conjunctions_by_branch_id().into_iter().map(|(id, c)| (id, c.scope_id)).collect();
    assert_eq!(pairs, vec![(0, 1), (2, 3)]);
    d.optimise_away_unsatisfiable_branches(vec![1, 3, 9]);
    assert!(d.conjunctions().is_empty());
}

#[test]
fn removing_nothing_keeps_everything() {
    let mut d = three_branches();
    d.optimise_away_unsatisfiable_branches(vec![]);
    assert_eq!(d.conjunctions().len(), 3);
    assert_eq!(d.branch_ids, vec![0, 1, 2]);
}

#[test]
fn referenced_variables_concatenate_branches() {
    let mut d = three_branches();
    d.conjunctions_mut()[0].variables = vec![4, 5];
    d.conjunctions_mut()[2].variables = vec![5, 6];
    assert_eq!(d.referenced_variables(), vec![4, 5, 5, 6]);
}

#[test]
fn nested_pattern_accessors() {
    let mut n = NestedPattern::Negation(Negation { conjunction: Conjunction::new(7) });
    assert!(n.as_disjunction().is_none());
    assert!(n.as_optional().is_none());
    assert_eq!(n.as_negation().unwrap().conjunction.scope_id, 7);
    n.as_negation_mut().unwrap().conjunction.scope_id = 8;
    assert_eq!(n.as_negation().unwrap().conjunction.scope_id, 8);

    let mut d = NestedPattern::Disjunction(Disjunction::new());
    assert!(d.as_disjunction().unwrap().conjunctions().is_empty());
    assert!(d.as_negation_mut().is_none());
    d.as_disjunction_mut().unwrap().conjunctions.push(Conjunction::new(3));
    assert_eq!(d.as_disjunction().unwrap().conjunctions().len(), 1);

    let mut o = NestedPattern::Optional(Optional { conjunction: Conjunction::new(4) });
    assert_eq!(o.as_optional_mut().unwrap().conjunction.scope_id, 4);
    assert!(o.as_disjunction_mut().is_none());
}

#[test]
fn child_scopes_record_their_parent() {
    let mut builder = DisjunctionBuilder::new(BlockBuilderContext::new(), 7, Disjunction::new());
    let a = builder.add_conjunction();
    let b = builder.add_conjunction();
    assert_eq!(builder.context.scope_parents, vec![(a, 7), (b, 7)]);
}
