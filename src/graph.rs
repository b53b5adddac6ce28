//! The planner's bipartite graph: variable-vertices and pattern-vertices with dense ids, and an
//! edge wherever a pattern references a variable.
use vstd::prelude::*;
use crate::cost::{Cost, TRIVIAL_COST, SCALE};

verus! {

#[derive(Clone, Copy, Debug, PartialEq, Eq, Structural)]
pub enum VariableKind {
    /// Bound before the conjunction runs.
    Input,
    Type,
    Thing,
    Value,
}

#[derive(Clone, Copy, Debug, PartialEq, Eq, Structural)]
pub struct VariableVertex {
    pub kind: VariableKind,
    /// Expected number of values, in fixed point.
    pub expected_size: u64,
}

#[derive(Clone, Copy, Debug, PartialEq, Eq, Structural)]
pub enum ConstraintKind {
    TypeList,
    Iid,
    Isa,
    Has,
    Links,
    IndexedRelation,
    Sub,
    Owns,
    Plays,
    Relates,
}

#[derive(Clone, Copy, Debug, PartialEq, Eq, Structural)]
pub enum PatternKind {
    Constraint(ConstraintKind),
    Is,
    Comparison,
    Expression,
    FunctionCall,
    Disjunction,
    Negation,
    LinksDeduplication,
    Unsatisfiable,
}

/// Which side of a binary constraint prefixes the sorted lookup.
#[derive(Clone, Copy, Debug, PartialEq, Eq, Structural)]
pub enum Direction {
    Canonical,
    Reverse,
}

#[derive(Clone, Copy, Debug, PartialEq, Eq, Structural)]
pub enum CostMetaData {
    NoMetaData,
    Direction(Direction),
}

/// A pattern-vertex with the costs that statistics give it.
///
/// For a binary constraint, `variables[0]` is the canonical prefix side and `variables[1]` the
/// other side. `*_scan` is the cost of a lookup whose prefix side is unbound, `*_seek` one whose
/// prefix side is bound. Other patterns cost `canonical_scan` unless all their variables are
/// bound.
#[derive(Clone, Debug)]
pub struct PatternVertex {
    pub kind: PatternKind,
    pub variables: Vec<usize>,
    /// The variables that must be bound before this pattern can run.
    pub required: Vec<usize>,
    pub canonical_scan: Cost,
    pub canonical_seek: Cost,
    pub reverse_scan: Cost,
    pub reverse_seek: Cost,
}

pub open spec fn is_binary_kind(k: PatternKind) -> bool {
    match k {
        PatternKind::Constraint(c) => c != ConstraintKind::TypeList && c != ConstraintKind::Iid,
        _ => false,
    }
}

/// `avail[v]` for every `v` of `vs`.
pub open spec fn all_available(vs: Seq<usize>, avail: Seq<bool>) -> bool {
    forall|i: int| 0 <= i < vs.len() ==> vs[i] < avail.len() && avail[vs[i] as int]
}

pub open spec fn cheaper_direction(c: Cost, r: Cost) -> Direction {
    if c.cost <= r.cost {
        Direction::Canonical
    } else {
        Direction::Reverse
    }
}

impl PatternVertex {
    pub open spec fn binary(&self) -> bool {
        is_binary_kind(self.kind) && self.variables@.len() >= 2
    }

    pub open spec fn lhs(&self) -> usize {
        self.variables@[0]
    }

    pub open spec fn rhs(&self) -> usize {
        self.variables@[1]
    }

    pub open spec fn is_constraint_spec(&self) -> bool {
        self.kind is Constraint
    }

    pub open spec fn can_be_trivial_spec(&self) -> bool {
        self.kind != PatternKind::Expression && self.kind != PatternKind::FunctionCall
    }

    pub open spec fn references(&self, v: usize) -> bool {
        self.variables@.contains(v)
    }

    pub open spec fn direction_cost(&self, d: Direction, avail: Seq<bool>) -> Cost {
        match d {
            Direction::Canonical => if avail[self.lhs() as int] {
                self.canonical_seek
            } else {
                self.canonical_scan
            },
            Direction::Reverse => if avail[self.rhs() as int] {
                self.reverse_seek
            } else {
                self.reverse_scan
            },
        }
    }

    /// The cost of running this pattern once `avail` variables are bound, and the direction it
    /// takes; a binary constraint takes `forced` if given, else its cheaper direction.
    pub open spec fn cost_spec(&self, avail: Seq<bool>, forced: Option<Direction>) -> (
        Cost,
        CostMetaData,
    ) {
        if all_available(self.variables@, avail) {
            let d = match forced {
                Some(d) => d,
                None => Direction::Canonical,
            };
            let trivial = Cost { cost: TRIVIAL_COST, io_ratio: SCALE };
            if self.binary() {
                (trivial, CostMetaData::Direction(d))
            } else {
                (trivial, CostMetaData::NoMetaData)
            }
        } else if self.binary() {
            let d = match forced {
                Some(d) => d,
                None => cheaper_direction(
                    self.direction_cost(Direction::Canonical, avail),
                    self.direction_cost(Direction::Reverse, avail),
                ),
            };
            (self.direction_cost(d, avail), CostMetaData::Direction(d))
        } else {
            (self.canonical_scan, CostMetaData::NoMetaData)
        }
    }

    /// The variable a step led by this constraint in direction `d` sorts on: the first side
    /// under `d` that the ongoing step produces.
    pub open spec fn join_from_direction_spec(&self, d: Direction, step_produced: Seq<bool>) -> Option<
        usize,
    > {
        let (first, second) = match d {
            Direction::Canonical => (self.lhs(), self.rhs()),
            Direction::Reverse => (self.rhs(), self.lhs()),
        };
        if !self.binary() {
            None
        } else if step_produced[first as int] {
            Some(first)
        } else if step_produced[second as int] {
            Some(second)
        } else {
            None
        }
    }

    pub fn is_binary(&self) -> (r: bool)
        ensures
            r == self.binary(),
    {
        let k = match self.kind {
            PatternKind::Constraint(c) => match c {
                ConstraintKind::TypeList => false,
                ConstraintKind::Iid => false,
                _ => true,
            },
            _ => false,
        };
        k && self.variables.len() >= 2
    }

    pub fn is_constraint(&self) -> (r: bool)
        ensures
            r == self.is_constraint_spec(),
    {
        match self.kind {
            PatternKind::Constraint(_) => true,
            _ => false,
        }
    }

    /// Whether, once its variables are bound, this pattern is a mere check.
    pub fn can_be_trivial(&self) -> (r: bool)
        ensures
            r == self.can_be_trivial_spec(),
    {
        match self.kind {
            PatternKind::Expression => false,
            PatternKind::FunctionCall => false,
            _ => true,
        }
    }

    pub fn has_variable(&self, v: usize) -> (r: bool)
        ensures
            r == self.references(v),
    {
        let mut i: usize = 0;
        while i < self.variables.len()
            invariant
                i <= self.variables@.len(),
                forall|j: int| 0 <= j < i ==> self.variables@[j] != v,
            decreases self.variables@.len() - i,
        {
            if self.variables[i] == v {
                return true;
            }
            i = i + 1;
        }
        false
    }

    /// Whether a step of this constraint may intersect on `v`.
    pub fn can_join_on(&self, v: usize) -> (r: bool)
        ensures
            r == (self.binary() && (v == self.lhs() || v == self.rhs())),
    {
        self.is_binary() && (self.variables[0] == v || self.variables[1] == v)
    }

    /// The direction that makes `v` the sort variable.
    pub fn direction_from_join_var(&self, v: usize) -> (r: Direction)
        requires
            self.binary(),
        ensures
            r == (if v == self.lhs() {
                Direction::Canonical
            } else {
                Direction::Reverse
            }),
    {
        if self.variables[0] == v {
            Direction::Canonical
        } else {
            Direction::Reverse
        }
    }

    pub fn join_from_direction(&self, d: Direction, step_produced: &Vec<bool>) -> (r: Option<usize>)
        requires
            self.binary() ==> self.lhs() < step_produced@.len() && self.rhs()
                < step_produced@.len(),
        ensures
            r == self.join_from_direction_spec(d, step_produced@),
            r matches Some(v) ==> self.references(v) && (v == self.lhs() || v == self.rhs()),
    {
        if !self.is_binary() {
            return None;
        }
        let (first, second) = match d {
            Direction::Canonical => (self.variables[0], self.variables[1]),
            Direction::Reverse => (self.variables[1], self.variables[0]),
        };
        if step_produced[first] {
            Some(first)
        } else if step_produced[second] {
            Some(second)
        } else {
            None
        }
    }

    /// Whether every variable this pattern requires is among `avail`.
    pub fn is_valid(&self, avail: &Vec<bool>) -> (r: bool)
        ensures
            r == all_available(self.required@, avail@),
    {
        let mut i: usize = 0;
        while i < self.required.len()
            invariant
                i <= self.required@.len(),
                forall|j: int|
                    0 <= j < i ==> self.required@[j] < avail@.len() && avail@[self.required@[j] as int],
            decreases self.required@.len() - i,
        {
            let v = self.required[i];
            if v >= avail.len() || !avail[v] {
                return false;
            }
            i = i + 1;
        }
        true
    }

    pub(crate) fn all_bound(&self, avail: &Vec<bool>) -> (r: bool)
        requires
            forall|i: int| 0 <= i < self.variables@.len() ==> self.variables@[i] < avail@.len(),
        ensures
            r == all_available(self.variables@, avail@),
    {
        let mut i: usize = 0;
        while i < self.variables.len()
            invariant
                forall|j: int| 0 <= j < self.variables@.len() ==> self.variables@[j] < avail@.len(),
                i <= self.variables@.len(),
                forall|j: int| 0 <= j < i ==> avail@[self.variables@[j] as int],
            decreases self.variables@.len() - i,
        {
            if !avail[self.variables[i]] {
                return false;
            }
            i = i + 1;
        }
        true
    }

    fn direction_cost_of(&self, d: Direction, avail: &Vec<bool>) -> (r: Cost)
        requires
            self.binary(),
            self.lhs() < avail@.len(),
            self.rhs() < avail@.len(),
        ensures
            r == self.direction_cost(d, avail@),
    {
        match d {
            Direction::Canonical => if avail[self.variables[0]] {
                self.canonical_seek
            } else {
                self.canonical_scan
            },
            Direction::Reverse => if avail[self.variables[1]] {
                self.reverse_seek
            } else {
                self.reverse_scan
            },
        }
    }

    pub fn cost_and_metadata(&self, avail: &Vec<bool>, forced: Option<Direction>) -> (r: (
        Cost,
        CostMetaData,
    ))
        requires
            forall|i: int| 0 <= i < self.variables@.len() ==> self.variables@[i] < avail@.len(),
        ensures
            r == self.cost_spec(avail@, forced),
    {
        if self.all_bound(avail) {
            let d = match forced {
                Some(d) => d,
                None => Direction::Canonical,
            };
            if self.is_binary() {
                (Cost::new_trivial(), CostMetaData::Direction(d))
            } else {
                (Cost::new_trivial(), CostMetaData::NoMetaData)
            }
        } else if self.is_binary() {
            let d = match forced {
                Some(d) => d,
                None => {
                    let c = self.direction_cost_of(Direction::Canonical, avail);
                    let r = self.direction_cost_of(Direction::Reverse, avail);
                    if c.cost <= r.cost {
                        Direction::Canonical
                    } else {
                        Direction::Reverse
                    }
                },
            };
            (self.direction_cost_of(d, avail), CostMetaData::Direction(d))
        } else {
            (self.canonical_scan, CostMetaData::NoMetaData)
        }
    }
}

/// One side of a comparison: a variable, or a value fixed before the query runs.
#[derive(Clone, Copy, Debug, PartialEq, Eq, Structural)]
pub enum ComparisonInput {
    Variable(usize),
    Fixed,
}

/// What the constraints say of a variable beyond its edges: the values it is compared equal
/// to, below or above, the variables it `is`, and the expression or function call that binds
/// it.
#[derive(Clone, Debug)]
pub struct VariableBounds {
    pub equal: Vec<ComparisonInput>,
    pub upper: Vec<ComparisonInput>,
    pub lower: Vec<ComparisonInput>,
    pub is: Vec<usize>,
    pub binding: Option<usize>,
}

impl VariableBounds {
    pub fn new() -> (r: VariableBounds)
        ensures
            r.equal@.len() == 0,
            r.upper@.len() == 0,
            r.lower@.len() == 0,
            r.is@.len() == 0,
            r.binding.is_none(),
    {
        VariableBounds { equal: Vec::new(), upper: Vec::new(), lower: Vec::new(), is: Vec::new(), binding: None }
    }
}

/// The pattern graph. Ids are positions: variable `v` is `variables[v]` with `bounds[v]`,
/// pattern `p` is `patterns[p]`, and pattern `p` has an edge to each variable in
/// `patterns[p].variables`.
#[derive(Clone, Debug)]
pub struct Graph {
    pub variables: Vec<VariableVertex>,
    pub patterns: Vec<PatternVertex>,
    pub bounds: Vec<VariableBounds>,
}

impl Graph {
    pub open spec fn num_vars(&self) -> nat {
        self.variables@.len()
    }

    pub open spec fn num_patterns(&self) -> nat {
        self.patterns@.len()
    }

    pub open spec fn pattern(&self, p: int) -> PatternVertex {
        self.patterns@[p]
    }

    pub open spec fn is_input(&self, v: int) -> bool {
        self.variables@[v].kind == VariableKind::Input
    }

    /// Pattern `p` has an edge to variable `v`.
    pub open spec fn edge(&self, p: int, v: int) -> bool {
        0 <= p < self.num_patterns() && 0 <= v < self.num_vars()
            && self.patterns@[p].variables@.contains(v as usize)
    }

    /// Every edge ends at an existing variable.
    pub open spec fn wf(&self) -> bool {
        &&& self.variables@.len() < usize::MAX
        &&& self.patterns@.len() < usize::MAX
        &&& self.bounds@.len() == self.variables@.len()
        &&& forall|p: int, i: int|
            0 <= p < self.patterns@.len() && 0 <= i < self.patterns@[p].variables@.len()
                ==> self.patterns@[p].variables@[i] < self.variables@.len()
        &&& forall|p: int, i: int|
            0 <= p < self.patterns@.len() && 0 <= i < self.patterns@[p].required@.len()
                ==> self.patterns@[p].required@[i] < self.variables@.len()
    }

    pub fn new() -> (r: Graph)
        ensures
            r.wf(),
            r.num_vars() == 0,
            r.num_patterns() == 0,
    {
        Graph { variables: Vec::new(), patterns: Vec::new(), bounds: Vec::new() }
    }

    /// Adds a variable-vertex and returns its id.
    pub fn push_variable(&mut self, vertex: VariableVertex) -> (r: usize)
        requires
            old(self).wf(),
            old(self).num_vars() + 1 < usize::MAX,
        ensures
            final(self).wf(),
            r == old(self).num_vars(),
            final(self).variables@ == old(self).variables@.push(vertex),
            final(self).patterns@ == old(self).patterns@,
            final(self).bounds@.drop_last() == old(self).bounds@,
            final(self).bounds@.last().equal@.len() == 0,
            final(self).bounds@.last().upper@.len() == 0,
            final(self).bounds@.last().lower@.len() == 0,
            final(self).bounds@.last().is@.len() == 0,
            final(self).bounds@.last().binding.is_none(),
    {
        let id = self.variables.len();
        self.variables.push(vertex);
        self.bounds.push(VariableBounds::new());
        proof {
            assert(self.bounds@.drop_last() =~= old(self).bounds@);
        }
        id
    }

    /// Replaces the bounds of variable `v`.
    pub fn set_bounds(&mut self, v: usize, b: VariableBounds)
        requires
            old(self).wf(),
            v < old(self).num_vars(),
        ensures
            final(self).wf(),
            final(self).variables@ == old(self).variables@,
            final(self).patterns@ == old(self).patterns@,
            final(self).bounds@ == old(self).bounds@.update(v as int, b),
    {
        let _ = self.bounds.remove(v);
        self.bounds.insert(v, b);
        proof {
            assert(self.bounds@ =~= old(self).bounds@.update(v as int, b));
        }
    }

    /// Takes the bounds of variable `v` out, leaving empty ones.
    pub fn take_bounds(&mut self, v: usize) -> (r: VariableBounds)
        requires
            old(self).wf(),
            v < old(self).num_vars(),
        ensures
            final(self).wf(),
            r == old(self).bounds@[v as int],
            final(self).variables@ == old(self).variables@,
            final(self).patterns@ == old(self).patterns@,
            final(self).bounds@.len() == old(self).bounds@.len(),
            forall|w: int| 0 <= w < old(self).bounds@.len() && w != v ==> final(self).bounds@[w] == old(self).bounds@[w],
    {
        let r = self.bounds.remove(v);
        self.bounds.insert(v, VariableBounds::new());
        r
    }

    /// Adds a pattern-vertex with its edges and returns its id.
    pub fn push_pattern(&mut self, vertex: PatternVertex) -> (r: usize)
        requires
            old(self).wf(),
            old(self).num_patterns() + 1 < usize::MAX,
            forall|i: int|
                0 <= i < vertex.variables@.len() ==> vertex.variables@[i] < old(self).num_vars(),
            forall|i: int|
                0 <= i < vertex.required@.len() ==> vertex.required@[i] < old(self).num_vars(),
        ensures
            final(self).wf(),
            r == old(self).num_patterns(),
            final(self).patterns@ == old(self).patterns@.push(vertex),
            final(self).variables@ == old(self).variables@,
            final(self).bounds@ == old(self).bounds@,
    {
        let id = self.patterns.len();
        self.patterns.push(vertex);
        proof {
            assert forall|p: int, i: int|
                0 <= p < self.patterns@.len() && 0 <= i < self.patterns@[p].variables@.len()
                    implies self.patterns@[p].variables@[i] < self.variables@.len() by {
                if p < old(self).patterns@.len() {
                    assert(self.patterns@[p] == old(self).patterns@[p]);
                }
            }
            assert forall|p: int, i: int|
                0 <= p < self.patterns@.len() && 0 <= i < self.patterns@[p].required@.len()
                    implies self.patterns@[p].required@[i] < self.variables@.len() by {
                if p < old(self).patterns@.len() {
                    assert(self.patterns@[p] == old(self).patterns@[p]);
                }
            }
        }
        id
    }

    /// Marks each variable of `inputs` as bound before the conjunction runs.
    pub fn with_inputs(&mut self, inputs: &Vec<usize>)
        requires
            old(self).wf(),
        ensures
            final(self).wf(),
            final(self).patterns@ == old(self).patterns@,
            final(self).bounds@ == old(self).bounds@,
            final(self).variables@.len() == old(self).variables@.len(),
            forall|v: int|
                0 <= v < old(self).num_vars() ==> (#[trigger] final(self).variables@[v]) == (if inputs@.contains(
                    v as usize,
                ) {
                    VariableVertex { kind: VariableKind::Input, ..old(self).variables@[v] }
                } else {
                    old(self).variables@[v]
                }),
    {
        let mut i: usize = 0;
        while i < inputs.len()
            invariant
                i <= inputs@.len(),
                self.wf(),
                self.patterns@ == old(self).patterns@,
                self.bounds@ == old(self).bounds@,
                self.variables@.len() == old(self).variables@.len(),
                forall|v: int|
                    0 <= v < old(self).num_vars() ==> (#[trigger] self.variables@[v]) == (if inputs@.take(
                        i as int,
                    ).contains(v as usize) {
                        VariableVertex { kind: VariableKind::Input, ..old(self).variables@[v] }
                    } else {
                        old(self).variables@[v]
                    }),
            decreases inputs@.len() - i,
        {
            let v = inputs[i];
            let ghost before = self.variables@;
            if v < self.variables.len() {
                let old_vertex = self.variables[v];
                self.variables.set(v, VariableVertex { kind: VariableKind::Input, expected_size: old_vertex.expected_size });
            }
            proof {
                let t1 = inputs@.take(i + 1);
                let t0 = inputs@.take(i as int);
                assert(t1 =~= t0.push(v));
                assert forall|w: int| 0 <= w < old(self).num_vars() implies (#[trigger] self.variables@[w]) == (
                if t1.contains(w as usize) {
                    VariableVertex { kind: VariableKind::Input, ..old(self).variables@[w] }
                } else {
                    old(self).variables@[w]
                }) by {
                    if w != v as int {
                        assert(self.variables@[w] == before[w]);
                        assert(t1.contains(w as usize) == t0.contains(w as usize)) by {
                            if t1.contains(w as usize) {
                                let k = choose|k: int| 0 <= k < t1.len() && t1[k] == w as usize;
                                assert(k < t0.len());
                                assert(t0[k] == w as usize);
                            }
                            if t0.contains(w as usize) {
                                let k = choose|k: int| 0 <= k < t0.len() && t0[k] == w as usize;
                                assert(t1[k] == w as usize);
                            }
                        }
                    } else {
                        assert(t1[i as int] == v);
                        assert(t1.contains(w as usize));
                    }
                }
            }
            i = i + 1;
        }
        proof {
            assert(inputs@.take(i as int) =~= inputs@);
        }
    }

    /// The ids of the input variables, ascending.
    pub fn input_variables(&self) -> (r: Vec<usize>)
        ensures
            forall|i: int| 0 <= i < r@.len() ==> r@[i] < self.num_vars() && self.is_input(r@[i] as int),
            forall|v: int| 0 <= v < self.num_vars() && self.is_input(v) ==> r@.contains(v as usize),
            r@.no_duplicates(),
            forall|i: int, j: int| 0 <= i < j < r@.len() ==> r@[i] < r@[j],
    {
        let mut r: Vec<usize> = Vec::new();
        let mut v: usize = 0;
        while v < self.variables.len()
            invariant
                v <= self.variables@.len(),
                forall|i: int| 0 <= i < r@.len() ==> r@[i] < v && self.is_input(r@[i] as int),
                forall|w: int| 0 <= w < v && self.is_input(w) ==> r@.contains(w as usize),
                forall|i: int, j: int| 0 <= i < j < r@.len() ==> r@[i] < r@[j],
            decreases self.variables@.len() - v,
        {
            if self.variables[v].kind == VariableKind::Input {
                let ghost prev = r@;
                r.push(v);
                proof {
                    assert forall|w: int| 0 <= w < v + 1 && self.is_input(w) implies r@.contains(
                        w as usize,
                    ) by {
                        if w < v {
                            assert(prev.contains(w as usize));
                            let k = choose|k: int| 0 <= k < prev.len() && prev[k] == w as usize;
                            assert(r@[k] == w as usize);
                        } else {
                            assert(r@[r@.len() - 1] == w as usize);
                        }
                    }
                }
            } else {
                proof {
                    assert forall|w: int| 0 <= w < v + 1 && self.is_input(w) implies r@.contains(
                        w as usize,
                    ) by {
                        if w == v {
                            assert(self.variables@[w].kind == self.variables@[v as int].kind);
                        }
                    }
                }
            }
            v = v + 1;
        }
        r
    }
}

} // verus!
