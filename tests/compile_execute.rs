//! The end-to-end scenarios, run through the library's steps on the tuples each constraint
//! would read from storage.
use match_planner::intersection::{intersect_row, IntersectionExecutor, Row, SortedTuple};
use match_planner::steps::{
    assign_rows, check_rows, disjunction_rows, negation_rows, CheckInstruction, Comparison, Expression, Operand,
};

fn tuple(key: u64, values: &[(usize, u64)]) -> SortedTuple {
    SortedTuple { key, values: values.to_vec(), count: 1 }
}

fn row(values: Vec<Option<u64>>) -> Row {
    Row { values, multiplicity: 1, provenance: 0 }
}

fn join_all(rows: &[Row], streams: &[Vec<SortedTuple>]) -> Vec<Row> {
    let mut out = Vec::new();
    for r in rows {
        out.extend(intersect_row(r, &streams.to_vec()).unwrap());
    }
    out
}

fn unique_values(rows: &[Row]) -> Vec<Vec<Option<u64>>> {
    let mut seen: Vec<Vec<Option<u64>>> = Vec::new();
    for r in rows {
        if !seen.contains(&r.values) {
            seen.push(r.values.clone());
        }
    }
    seen
}

// persons 1, 2, 3 (and 4 where present); names as numbers
const JOHN: u64 = 100;
const ALICE: u64 = 101;
const LEILA: u64 = 102;

#[test]
fn test_has_planning_traversal() {
    // positions: 0 = person, 1 = name, 2 = age
    let names = vec![tuple(1, &[(0, 1), (1, JOHN)]), tuple(1, &[(0, 1), (1, ALICE)]), tuple(3, &[(0, 3), (1, LEILA)])];
    let mut ages = Vec::new();
    for (p, a) in [(1u64, 10u64), (1, 11), (1, 12), (2, 10), (2, 13), (2, 14), (3, 13)] {
        ages.push(tuple(p, &[(0, p), (2, a)]));
    }
    let rows = join_all(&[row(vec![None; 3])], &[names, ages]);
    assert_eq!(rows.len(), 7);
}

#[test]
fn test_expression_planning_traversal() {
    // positions: 0 = person_1, 1 = A1, 2 = person_2, 3 = A2, 4 = A1 + 2
    let ages = [(1u64, 10u64), (2, 12), (3, 14)];
    let first: Vec<SortedTuple> = ages.iter().map(|&(p, a)| tuple(p, &[(0, p), (1, a)])).collect();
    let second: Vec<SortedTuple> = ages.iter().map(|&(p, a)| tuple(p, &[(2, p), (3, a)])).collect();
    let rows = join_all(&[row(vec![None; 5])], &[first]);
    let rows = join_all(&rows, &[second]);
    let rows = assign_rows(&rows, Expression::Add(Operand::Position(1), Operand::Constant(2)), 4).unwrap();
    let eq = CheckInstruction { lhs: Operand::Position(3), comparison: Comparison::Equal, rhs: Operand::Position(4) };
    let rows = check_rows(&rows, &vec![eq]);
    assert_eq!(rows.len(), 2);
}

#[test]
fn test_links_planning_traversal() {
    // persons 0, 1, 2 with names; memberships 50 of person 0 and 51 of person 2
    // positions: 0 = person, 1 = name, 2 = membership
    let names = vec![tuple(0, &[(0, 0), (1, 7)]), tuple(1, &[(0, 1), (1, 8)]), tuple(2, &[(0, 2), (1, 9)])];
    let links = vec![tuple(0, &[(0, 0), (2, 50)]), tuple(2, &[(0, 2), (2, 51)])];
    let rows = join_all(&[row(vec![None; 3])], &[names, links]);
    assert_eq!(rows.len(), 2);
}

#[test]
fn test_links_intersection() {
    // users 10, 11, 12; orders 0, 1, 2; purchases 20 and 21 of (10, 0), 22 of (11, 1)
    // positions: 0 = order, 1 = purchase, 2 = buyer, 3 = status, 4 = timestamp
    let links = vec![
        tuple(0, &[(0, 0), (1, 20), (2, 10)]),
        tuple(0, &[(0, 0), (1, 21), (2, 10)]),
        tuple(1, &[(0, 1), (1, 22), (2, 11)]),
    ];
    let status: Vec<SortedTuple> = (0..3u64).map(|o| tuple(o, &[(3, 70 + o)])).collect();
    let timestamp: Vec<SortedTuple> = (0..3u64).map(|o| tuple(o, &[(4, 0)])).collect();
    let rows = join_all(&[row(vec![None; 5])], &[links, status, timestamp]);
    assert_eq!(rows.len(), 3);
}

#[test]
fn test_negation_planning_traversal() {
    // persons 1 (John, Alice), 2 (no name), 3 (Leila)
    let persons = vec![tuple(1, &[(0, 1)]), tuple(2, &[(0, 2)]), tuple(3, &[(0, 3)])];
    let names = vec![tuple(1, &[(1, JOHN)]), tuple(1, &[(1, ALICE)]), tuple(3, &[(1, LEILA)])];
    let rows = join_all(&[row(vec![None; 2])], &[persons]);
    let counts: Vec<usize> = rows
        .iter()
        .map(|r| {
            let person = r.values[0].unwrap();
            let own: Vec<SortedTuple> = names.iter().filter(|t| t.key == person).cloned().collect();
            intersect_row(r, &vec![own]).unwrap().len()
        })
        .collect();
    let rows = negation_rows(&rows, &counts);
    assert_eq!(rows.len(), 1);
    assert_eq!(rows[0].values[0], Some(2));
}

#[test]
fn test_forall_planning_traversal() {
    // sets 10 = {a}, 11 = {a, b}, 12 = {a, c}, 13 = {a, b, c}; items 1 = a, 2 = b, 3 = c
    let members: Vec<(u64, u64)> = vec![(10, 1), (11, 1), (11, 2), (12, 1), (12, 3), (13, 1), (13, 2), (13, 3)];
    let holds = |set: u64, item: u64| members.contains(&(set, item));
    // positions: 0 = sup, 1 = unique, 2 = sub
    let by_set: Vec<SortedTuple> = members.iter().map(|&(s, i)| tuple(s, &[(0, s), (1, i)])).collect();
    let sets: Vec<SortedTuple> = [10u64, 11, 12, 13].iter().map(|&s| tuple(s, &[(2, s)])).collect();
    let rows = join_all(&[row(vec![None; 3])], &[by_set]);
    let rows = join_all(&rows, &[sets]);
    // not { (item: unique, set: sub) }
    let counts: Vec<usize> =
        rows.iter().map(|r| usize::from(holds(r.values[2].unwrap(), r.values[1].unwrap()))).collect();
    let rows = negation_rows(&rows, &counts);
    // not { (item: element, set: sub); not { (item: element, set: sup) }; }
    let counts: Vec<usize> = rows
        .iter()
        .map(|r| {
            let (sup, sub) = (r.values[0].unwrap(), r.values[2].unwrap());
            let elements: Vec<Row> =
                members.iter().filter(|&&(s, _)| s == sub).map(|&(_, e)| row(vec![Some(e)])).collect();
            let inner: Vec<usize> = elements.iter().map(|e| usize::from(holds(sup, e.values[0].unwrap()))).collect();
            negation_rows(&elements, &inner).len()
        })
        .collect();
    let rows = negation_rows(&rows, &counts);
    assert_eq!(rows.len(), 6);
}

/// persons 1 (age 12, John), 2 (age 14), 3 (Leila), 4 (nothing)
fn people() -> (Vec<SortedTuple>, Vec<SortedTuple>, Vec<SortedTuple>) {
    let persons = (1..=4u64).map(|p| tuple(p, &[(0, p)])).collect();
    let names = vec![tuple(1, &[(0, 1), (1, JOHN)]), tuple(3, &[(0, 3), (1, LEILA)])];
    let ages = vec![tuple(1, &[(0, 1), (2, 12)]), tuple(2, &[(0, 2), (2, 14)])];
    (persons, names, ages)
}

#[test]
fn test_named_var_select() {
    // `$person has name $_, has age $_`: only $person is selected
    let (_, names, ages) = people();
    let mut exec = IntersectionExecutor::new(3, vec![0], 16);
    exec.prepare(&vec![row(vec![None; 3])], &vec![vec![names, ages]]).unwrap();
    let batch = exec.batch_continue().unwrap();
    for r in &batch {
        let non_empty_count = r.values.iter().filter(|v| v.is_some()).count();
        assert_eq!(non_empty_count, 1, "expected only $person to have value in output row");
    }
    assert_eq!(batch.len(), 1);
    assert!(exec.batch_continue().is_none());
}

#[test]
fn test_disjunction_planning_traversal() {
    // `$person isa person; { $person has name $n; } or { $person has age $a; };`, selecting $person
    let (persons, names, ages) = people();
    let rows = join_all(&[row(vec![None; 3])], &[persons]);
    // each branch's lookup starts from the bound person
    let of = |stream: &Vec<SortedTuple>, r: &Row| -> Vec<SortedTuple> {
        stream.iter().filter(|t| Some(t.key) == r.values[0]).cloned().collect()
    };
    let mut by_name = Vec::new();
    let mut by_age = Vec::new();
    for r in &rows {
        by_name.extend(intersect_row(r, &vec![of(&names, r)]).unwrap());
        by_age.extend(intersect_row(r, &vec![of(&ages, r)]).unwrap());
    }
    let out = disjunction_rows(&vec![by_name, by_age], &vec![0], 3);
    assert_eq!(out.len(), 4);
    assert_eq!(unique_values(&out).len(), 3);
}

#[test]
fn test_mismatched_input_types() {
    // `{ $x links (friend: $p); } or { $x has name $n; }; select $x;`
    // positions: 0 = x, 1 = p (first branch), 2 = n (second branch)
    let links = vec![row(vec![Some(1), Some(7), None]), row(vec![Some(2), Some(8), None])];
    let names = vec![Row { values: vec![Some(3), None, Some(9)], multiplicity: 2, provenance: 1 }];
    let out = disjunction_rows(&vec![links, names], &vec![0], 3);
    assert_eq!(out.len(), 3);
    for r in &out {
        assert!(r.values[1].is_none() && r.values[2].is_none());
    }
    let xs: Vec<Option<u64>> = out.iter().map(|r| r.values[0]).collect();
    assert_eq!(xs, vec![Some(1), Some(2), Some(3)]);
    assert_eq!(out[2].multiplicity, 2);
    assert_eq!(out[2].provenance, 1);
}
