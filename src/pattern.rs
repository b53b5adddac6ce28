//! The nested pattern tree: conjunctions, disjunctions over branches, negations and optionals.
use vstd::prelude::*;

verus! {

/// Identifies a lexical scope of the query.
pub type ScopeId = u64;

/// Identifies a branch of a disjunction; unique within a query.
pub type BranchID = u64;

/// Identifies a variable of the query.
pub type Variable = u64;

/// A set of constraints that must hold together, in its own scope.
#[derive(Clone, Debug)]
pub struct Conjunction {
    pub scope_id: ScopeId,
    /// The variables that the conjunction's constraints reference, in order of first mention.
    pub variables: Vec<Variable>,
}

impl Conjunction {
    pub fn new(scope_id: ScopeId) -> (r: Conjunction)
        ensures
            r.scope_id == scope_id,
            r.variables@.len() == 0,
    {
        Conjunction { scope_id, variables: Vec::new() }
    }

    pub fn scope_id(&self) -> (r: ScopeId)
        ensures
            r == self.scope_id,
    {
        self.scope_id
    }
}

/// A pattern that must not hold.
#[derive(Clone, Debug)]
pub struct Negation {
    pub conjunction: Conjunction,
}

/// A pattern that may or may not hold.
#[derive(Clone, Debug)]
pub struct Optional {
    pub conjunction: Conjunction,
}

/// A choice between branches, each a conjunction with its own branch id.
#[derive(Clone, Debug)]
pub struct Disjunction {
    pub conjunctions: Vec<Conjunction>,
    pub branch_ids: Vec<BranchID>,
}

/// Counters that hand out fresh scope ids and branch ids while a query is being built, and the
/// parent of each scope handed out.
#[derive(Clone, Debug)]
pub struct BlockBuilderContext {
    pub next_scope: ScopeId,
    pub next_branch: BranchID,
    /// `(child, parent)` for each scope created, in order.
    pub scope_parents: Vec<(ScopeId, ScopeId)>,
}

impl BlockBuilderContext {
    pub fn new() -> (r: BlockBuilderContext)
        ensures
            r.next_scope == 1,
            r.next_branch == 0,
            r.scope_parents@.len() == 0,
    {
        BlockBuilderContext { next_scope: 1, next_branch: 0, scope_parents: Vec::new() }
    }

    /// Hands out the next scope id, recording `parent` as its parent.
    pub fn create_child_scope(&mut self, parent: ScopeId) -> (r: ScopeId)
        requires
            old(self).next_scope < u64::MAX,
        ensures
            r == old(self).next_scope,
            final(self).next_scope == old(self).next_scope + 1,
            final(self).next_branch == old(self).next_branch,
            final(self).scope_parents@ == old(self).scope_parents@.push((r, parent)),
    {
        let id = self.next_scope;
        self.next_scope = self.next_scope + 1;
        self.scope_parents.push((id, parent));
        id
    }

    /// Hands out the next branch id.
    pub fn next_branch_id(&mut self) -> (r: BranchID)
        requires
            old(self).next_branch < u64::MAX,
        ensures
            r == old(self).next_branch,
            final(self).next_branch == old(self).next_branch + 1,
            final(self).next_scope == old(self).next_scope,
            final(self).scope_parents@ == old(self).scope_parents@,
    {
        let id = self.next_branch;
        self.next_branch = self.next_branch + 1;
        id
    }
}

/// The variables of the branches `cs`, concatenated in branch order.
pub open spec fn all_variables(cs: Seq<Conjunction>) -> Seq<Variable>
    decreases cs.len(),
{
    if cs.len() == 0 {
        Seq::empty()
    } else {
        all_variables(cs.drop_last()) + cs.last().variables@
    }
}

/// The branches of `cs` (paired with `ids`) whose scope is not in `unsat`, in their order.
pub open spec fn retained_conjunctions(cs: Seq<Conjunction>, unsat: Seq<ScopeId>) -> Seq<Conjunction>
    decreases cs.len(),
{
    if cs.len() == 0 {
        Seq::empty()
    } else {
        let rest = retained_conjunctions(cs.drop_last(), unsat);
        if unsat.contains(cs.last().scope_id) {
            rest
        } else {
            rest.push(cs.last())
        }
    }
}

/// The branch ids paired with the branches that `retained_conjunctions` keeps.
pub open spec fn retained_branch_ids(
    cs: Seq<Conjunction>,
    ids: Seq<BranchID>,
    unsat: Seq<ScopeId>,
) -> Seq<BranchID>
    decreases cs.len(),
{
    if cs.len() == 0 || ids.len() == 0 {
        Seq::empty()
    } else {
        let rest = retained_branch_ids(cs.drop_last(), ids.drop_last(), unsat);
        if unsat.contains(cs.last().scope_id) {
            rest
        } else {
            rest.push(ids.last())
        }
    }
}

fn contains_scope(scopes: &Vec<ScopeId>, s: ScopeId) -> (r: bool)
    ensures
        r == scopes@.contains(s),
{
    let mut i: usize = 0;
    while i < scopes.len()
        invariant
            i <= scopes@.len(),
            forall|j: int| 0 <= j < i ==> scopes@[j] != s,
        decreases scopes@.len() - i,
    {
        if scopes[i] == s {
            return true;
        }
        i = i + 1;
    }
    false
}

impl Disjunction {
    /// Each branch has exactly one branch id.
    pub open spec fn wf(&self) -> bool {
        self.conjunctions@.len() == self.branch_ids@.len()
    }

    pub open spec fn branches(&self) -> Seq<Conjunction> {
        self.conjunctions@
    }

    pub open spec fn ids(&self) -> Seq<BranchID> {
        self.branch_ids@
    }

    pub fn new() -> (r: Disjunction)
        ensures
            r.wf(),
            r.branches().len() == 0,
            r.ids().len() == 0,
    {
        Disjunction { conjunctions: Vec::new(), branch_ids: Vec::new() }
    }

    /// The branches paired with their branch ids, in order.
    pub fn conjunctions_by_branch_id(&self) -> (r: Vec<(BranchID, &Conjunction)>)
        requires
            self.wf(),
        ensures
            r@.len() == self.branches().len(),
            forall|i: int|
                0 <= i < r@.len() ==> r@[i].0 == self.ids()[i] && *r@[i].1 == self.branches()[i],
    {
        let mut r: Vec<(BranchID, &Conjunction)> = Vec::new();
        let mut i: usize = 0;
        while i < self.conjunctions.len()
            invariant
                self.wf(),
                i <= self.conjunctions@.len(),
                r@.len() == i,
                forall|j: int|
                    0 <= j < i ==> r@[j].0 == self.ids()[j] && *r@[j].1 == self.branches()[j],
            decreases self.conjunctions@.len() - i,
        {
            r.push((self.branch_ids[i], &self.conjunctions[i]));
            i = i + 1;
        }
        r
    }

    pub fn conjunctions(&self) -> (r: &[Conjunction])
        ensures
            r@ == self.branches(),
    {
        self.conjunctions.as_slice()
    }

    pub fn conjunctions_mut(&mut self) -> (r: &mut Vec<Conjunction>)
        ensures
            *r == old(self).conjunctions,
            final(self).conjunctions == *final(r),
            final(self).branch_ids == old(self).branch_ids,
    {
        &mut self.conjunctions
    }

    /// Every variable that some branch references, branch by branch.
    pub fn referenced_variables(&self) -> (r: Vec<Variable>)
        ensures
            r@ == all_variables(self.branches()),
    {
        let mut r: Vec<Variable> = Vec::new();
        let mut i: usize = 0;
        while i < self.conjunctions.len()
            invariant
                i <= self.conjunctions@.len(),
                r@ == all_variables(self.branches().take(i as int)),
            decreases self.conjunctions@.len() - i,
        {
            let vars = &self.conjunctions[i].variables;
            let ghost before = r@;
            let mut j: usize = 0;
            while j < vars.len()
                invariant
                    i < self.conjunctions@.len(),
                    *vars == self.branches()[i as int].variables,
                    j <= vars@.len(),
                    r@ == before + vars@.take(j as int),
                decreases vars@.len() - j,
            {
                r.push(vars[j]);
                proof {
                    assert(r@ =~= before + vars@.take(j + 1));
                }
                j = j + 1;
            }
            proof {
                assert(self.branches().take(i + 1).drop_last() =~= self.branches().take(i as int));
                assert(vars@.take(j as int) =~= vars@);
            }
            i = i + 1;
        }
        proof {
            assert(self.branches().take(i as int) =~= self.branches());
        }
        r
    }

    /// Removes the branches whose scope is among `unsatisfiable`, with their branch ids.
    pub fn optimise_away_unsatisfiable_branches(&mut self, unsatisfiable: Vec<ScopeId>)
        requires
            old(self).wf(),
        ensures
            final(self).wf(),
            final(self).branches() == retained_conjunctions(old(self).branches(), unsatisfiable@),
            final(self).ids() == retained_branch_ids(
                old(self).branches(),
                old(self).ids(),
                unsatisfiable@,
            ),
    {
        let ghost orig = self.branches();
        let ghost orig_ids = self.ids();
        let mut rest: Vec<Conjunction> = Vec::new();
        let mut rest_ids: Vec<BranchID> = Vec::new();
        std::mem::swap(&mut self.conjunctions, &mut rest);
        std::mem::swap(&mut self.branch_ids, &mut rest_ids);
        let n = rest.len();
        let mut i: usize = 0;
        while i < n
            invariant
                orig.len() == orig_ids.len(),
                n == orig.len(),
                i <= n,
                rest@ == orig.skip(i as int),
                rest_ids@ == orig_ids.skip(i as int),
                self.conjunctions@ == retained_conjunctions(orig.take(i as int), unsatisfiable@),
                self.branch_ids@ == retained_branch_ids(
                    orig.take(i as int),
                    orig_ids.take(i as int),
                    unsatisfiable@,
                ),
                self.conjunctions@.len() == self.branch_ids@.len(),
            decreases n - i,
        {
            proof {
                assert(orig.take(i + 1).drop_last() =~= orig.take(i as int));
                assert(orig_ids.take(i + 1).drop_last() =~= orig_ids.take(i as int));
                assert(orig.take(i + 1).last() == orig[i as int]);
                assert(orig_ids.take(i + 1).last() == orig_ids[i as int]);
            }
            let c = rest.remove(0);
            let id = rest_ids.remove(0);
            proof {
                assert(rest@ =~= orig.skip(i + 1));
                assert(rest_ids@ =~= orig_ids.skip(i + 1));
            }
            if !contains_scope(&unsatisfiable, c.scope_id) {
                self.conjunctions.push(c);
                self.branch_ids.push(id);
            }
            i = i + 1;
        }
        proof {
            assert(orig.take(n as int) =~= orig);
            assert(orig_ids.take(n as int) =~= orig_ids);
        }
    }
}

/// Adds branches to a disjunction, each in a fresh child scope with a fresh branch id.
pub struct DisjunctionBuilder {
    pub context: BlockBuilderContext,
    pub disjunction: Disjunction,
    pub scope_id: ScopeId,
}

impl DisjunctionBuilder {
    pub fn new(context: BlockBuilderContext, scope_id: ScopeId, disjunction: Disjunction) -> (r:
        DisjunctionBuilder)
        ensures
            r.context == context,
            r.scope_id == scope_id,
            r.disjunction == disjunction,
    {
        DisjunctionBuilder { context, disjunction, scope_id }
    }

    /// Opens a new, empty branch and returns its scope id.
    pub fn add_conjunction(&mut self) -> (r: ScopeId)
        requires
            old(self).disjunction.wf(),
            old(self).context.next_scope < u64::MAX,
            old(self).context.next_branch < u64::MAX,
        ensures
            final(self).disjunction.wf(),
            r == old(self).context.next_scope,
            final(self).context.next_scope == old(self).context.next_scope + 1,
            final(self).context.next_branch == old(self).context.next_branch + 1,
            final(self).context.scope_parents@ == old(self).context.scope_parents@.push(
                (r, old(self).scope_id),
            ),
            final(self).scope_id == old(self).scope_id,
            final(self).disjunction.branches().len() == old(self).disjunction.branches().len() + 1,
            final(self).disjunction.branches().drop_last() == old(self).disjunction.branches(),
            final(self).disjunction.branches().last().scope_id == r,
            final(self).disjunction.branches().last().variables@.len() == 0,
            final(self).disjunction.ids() == old(self).disjunction.ids().push(
                old(self).context.next_branch,
            ),
    {
        let conj_scope_id = self.context.create_child_scope(self.scope_id);
        self.disjunction.conjunctions.push(Conjunction::new(conj_scope_id));
        let branch_id = self.context.next_branch_id();
        self.disjunction.branch_ids.push(branch_id);
        proof {
            assert(self.disjunction.branches().drop_last() =~= old(self).disjunction.branches());
        }
        conj_scope_id
    }
}

/// A pattern nested inside a conjunction.
#[derive(Clone, Debug)]
pub enum NestedPattern {
    Disjunction(Disjunction),
    Negation(Negation),
    Optional(Optional),
}

impl NestedPattern {
    pub fn as_disjunction(&self) -> (r: Option<&Disjunction>)
        ensures
            match self {
                NestedPattern::Disjunction(d) => r == Some(d),
                _ => r.is_none(),
            },
    {
        match self {
            NestedPattern::Disjunction(disjunction) => Some(disjunction),
            _ => None,
        }
    }

    pub fn as_disjunction_mut(&mut self) -> (r: Option<&mut Disjunction>)
        ensures
            match *old(self) {
                NestedPattern::Disjunction(d) => r.is_some() && *r.unwrap() == d
                    && *final(self) == NestedPattern::Disjunction(*final(r.unwrap())),
                _ => r.is_none() && *final(self) == *old(self),
            },
    {
        match self {
            NestedPattern::Disjunction(disjunction) => Some(disjunction),
            _ => None,
        }
    }

    pub fn as_negation(&self) -> (r: Option<&Negation>)
        ensures
            match self {
                NestedPattern::Negation(n) => r == Some(n),
                _ => r.is_none(),
            },
    {
        match self {
            NestedPattern::Negation(negation) => Some(negation),
            _ => None,
        }
    }

    pub fn as_negation_mut(&mut self) -> (r: Option<&mut Negation>)
        ensures
            match *old(self) {
                NestedPattern::Negation(n) => r.is_some() && *r.unwrap() == n
                    && *final(self) == NestedPattern::Negation(*final(r.unwrap())),
                _ => r.is_none() && *final(self) == *old(self),
            },
    {
        match self {
            NestedPattern::Negation(negation) => Some(negation),
            _ => None,
        }
    }

    pub fn as_optional(&self) -> (r: Option<&Optional>)
        ensures
            match self {
                NestedPattern::Optional(o) => r == Some(o),
                _ => r.is_none(),
            },
    {
        match self {
            NestedPattern::Optional(optional) => Some(optional),
            _ => None,
        }
    }

    pub fn as_optional_mut(&mut self) -> (r: Option<&mut Optional>)
        ensures
            match *old(self) {
                NestedPattern::Optional(o) => r.is_some() && *r.unwrap() == o
                    && *final(self) == NestedPattern::Optional(*final(r.unwrap())),
                _ => r.is_none() && *final(self) == *old(self),
            },
    {
        match self {
            NestedPattern::Optional(optional) => Some(optional),
            _ => None,
        }
    }
}

} // verus!
