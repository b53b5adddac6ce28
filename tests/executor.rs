use match_planner::intersection::{intersect_row, IntersectionExecutor, ReadExecutionError, Row, SortedTuple};

fn tuple(key: u64, values: &[(usize, u64)]) -> SortedTuple {
    SortedTuple { key, values: values.to_vec(), count: 1 }
}

fn input(width: usize) -> Row {
    Row { values: vec![None; width], multiplicity: 1, provenance: 0 }
}

fn total(rows: &[Row]) -> u64 {
    rows.iter().map(|r| r.multiplicity).sum()
}

// positions: 0 = person, 1 = name, 2 = age
const A: u64 = 1;
const B: u64 = 2;
const C: u64 = 3;
const JOHN: u64 = 100;
const ALICE: u64 = 101;
const LEILA: u64 = 102;

fn has_name() -> Vec<SortedTuple> {
    vec![
        tuple(A, &[(0, A), (1, JOHN)]),
        tuple(A, &[(0, A), (1, ALICE)]),
        tuple(C, &[(0, C), (1, LEILA)]),
    ]
}

fn has_age() -> Vec<SortedTuple> {
    let mut v = Vec::new();
    for (p, a) in [(A, 10), (A, 11), (A, 12), (B, 10), (B, 13), (B, 14), (C, 13)] {
        v.push(tuple(p, &[(0, p), (2, a)]));
    }
    v
}

#[test]
fn single_stream_passes_through() {
    let stream = vec![
        tuple(1, &[(0, 1)]),
        SortedTuple { key: 1, values: vec![(0, 1), (1, 5)], count: 3 },
        tuple(4, &[(0, 4)]),
    ];
    let rows = intersect_row(&input(2), &vec![stream.clone()]).unwrap();
    assert_eq!(rows.len(), 3);
    let mults: Vec<u64> = rows.iter().map(|r| r.multiplicity).collect();
    assert_eq!(mults, vec![1, 3, 1]);
    assert_eq!(rows[1].values, vec![Some(1), Some(5)]);
}

#[test]
fn cartesian_then_next_key_single() {
    // key 5 has two tuples in each stream; key 6 has one in each
    let left = vec![tuple(5, &[(1, 1)]), tuple(5, &[(1, 2)]), tuple(6, &[(1, 3)])];
    let right = vec![tuple(5, &[(2, 1)]), tuple(5, &[(2, 2)]), tuple(6, &[(2, 3)])];
    let rows = intersect_row(&input(3), &vec![left, right]).unwrap();
    let got: Vec<(Option<u64>, Option<u64>)> = rows.iter().map(|r| (r.values[1], r.values[2])).collect();
    assert_eq!(
        got,
        vec![
            (Some(1), Some(1)),
            (Some(1), Some(2)),
            (Some(2), Some(1)),
            (Some(2), Some(2)),
            (Some(3), Some(3)),
        ]
    );
}

#[test]
fn disjoint_streams_yield_nothing() {
    let rows = intersect_row(&input(1), &vec![vec![tuple(1, &[]), tuple(3, &[])], vec![tuple(2, &[]), tuple(4, &[])]])
        .unwrap();
    assert!(rows.is_empty());
}

#[test]
fn empty_stream_yields_nothing() {
    let rows = intersect_row(&input(1), &vec![vec![tuple(1, &[])], vec![]]).unwrap();
    assert!(rows.is_empty());
}

#[test]
fn multiplicities_multiply() {
    let a = vec![SortedTuple { key: 9, values: vec![], count: 3 }];
    let b = vec![SortedTuple { key: 9, values: vec![], count: 4 }];
    let rows = intersect_row(&input(0), &vec![a, b]).unwrap();
    assert_eq!(rows.len(), 1);
    assert_eq!(rows[0].multiplicity, 12);
}

#[test]
fn multiplicity_overflow_is_an_error() {
    let a = vec![SortedTuple { key: 9, values: vec![], count: u64::MAX }];
    let b = vec![SortedTuple { key: 9, values: vec![], count: 2 }];
    let result = intersect_row(&input(0), &vec![a, b]);
    assert!(matches!(result, Err(ReadExecutionError::MultiplicityOverflow)));
}

#[test]
fn input_values_carry_over() {
    let row = Row { values: vec![Some(42), None], multiplicity: 5, provenance: 3 };
    let rows = intersect_row(&row, &vec![vec![tuple(1, &[(1, 8)])]]).unwrap();
    assert_eq!(rows[0].values, vec![Some(42), Some(8)]);
    assert_eq!(rows[0].provenance, 3);
}

fn all_batches(exec: &mut IntersectionExecutor) -> Vec<Vec<Row>> {
    let mut out = Vec::new();
    while let Some(batch) = exec.batch_continue() {
        out.push(batch);
    }
    out
}

#[test]
fn batches_respect_size_and_selection() {
    let mut exec = IntersectionExecutor::new(3, vec![0, 2], 4);
    exec.prepare(&vec![input(3)], &vec![vec![has_name(), has_age()]]).unwrap();
    let batches = all_batches(&mut exec);
    let sizes: Vec<usize> = batches.iter().map(|b| b.len()).collect();
    assert_eq!(sizes, vec![4, 3]);
    assert_eq!(batches[0][0].values, vec![Some(A), None, Some(10)]);
    assert!(exec.batch_continue().is_none());
}

#[test]
fn rows_of_several_inputs_follow_input_order() {
    let mut exec = IntersectionExecutor::new(2, vec![0, 1], 100);
    let inputs = vec![
        Row { values: vec![Some(1), None], multiplicity: 1, provenance: 0 },
        Row { values: vec![Some(2), None], multiplicity: 1, provenance: 1 },
    ];
    let streams = vec![vec![vec![tuple(1, &[(1, 10)])]], vec![vec![tuple(2, &[(1, 20)]), tuple(3, &[(1, 30)])]]];
    exec.prepare(&inputs, &streams).unwrap();
    let batches = all_batches(&mut exec);
    assert_eq!(batches.len(), 1);
    let rows = &batches[0];
    assert_eq!(rows.len(), 3);
    assert_eq!(rows[0].provenance, 0);
    assert_eq!(rows[2].values, vec![Some(2), Some(30)]);
}

#[test]
fn reset_then_prepare_repeats_output() {
    let mut exec = IntersectionExecutor::new(3, vec![0, 1, 2], 3);
    let inputs = vec![input(3)];
    let streams = vec![vec![has_name(), has_age()]];
    exec.prepare(&inputs, &streams).unwrap();
    let first = all_batches(&mut exec);
    exec.prepare(&inputs, &streams).unwrap();
    let _partial = exec.batch_continue();
    exec.reset();
    exec.prepare(&inputs, &streams).unwrap();
    let second = all_batches(&mut exec);
    let flat = |b: &Vec<Vec<Row>>| -> Vec<(Vec<Option<u64>>, u64)> {
        b.iter().flatten().map(|r| (r.values.clone(), r.multiplicity)).collect()
    };
    assert_eq!(flat(&first), flat(&second));
    assert_eq!(flat(&first).len(), 7);
}

#[test]
fn narrow_input_keeps_values_written_past_its_width() {
    let mut exec = IntersectionExecutor::new(3, vec![0, 1, 2], 8);
    let narrow = Row { values: vec![Some(4)], multiplicity: 1, provenance: 0 };
    exec.prepare(&vec![narrow], &vec![vec![vec![tuple(1, &[(2, 9)])]]]).unwrap();
    let batch = exec.batch_continue().unwrap();
    assert_eq!(batch[0].values, vec![Some(4), None, Some(9)]);
}

#[test]
fn overflowing_input_stops_prepare_after_earlier_rows() {
    let mut exec = IntersectionExecutor::new(1, vec![0], 8);
    let ok = vec![tuple(1, &[(0, 1)])];
    let big = vec![
        vec![SortedTuple { key: 9, values: vec![], count: u64::MAX }],
        vec![SortedTuple { key: 9, values: vec![], count: 2 }],
    ];
    let result = exec.prepare(&vec![input(1), input(1)], &vec![vec![ok], big]);
    assert!(matches!(result, Err(ReadExecutionError::MultiplicityOverflow)));
    let batch = exec.batch_continue().unwrap();
    assert_eq!(batch.len(), 1);
    assert!(exec.batch_continue().is_none());
}

#[test]
fn interrupt_yields_none_and_keeps_rows() {
    let mut exec = IntersectionExecutor::new(3, vec![0, 1, 2], 4);
    exec.prepare(&vec![input(3)], &vec![vec![has_name(), has_age()]]).unwrap();
    assert!(exec.batch_continue_interruptible(true).is_none());
    assert_eq!(exec.batch_continue_interruptible(false).unwrap().len(), 4);
    assert_eq!(exec.batch_continue().unwrap().len(), 3);
}
