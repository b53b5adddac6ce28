//! Planner costs in fixed point: every quantity is counted in thousandths of a unit.
//!
//! A `Cost` pairs the work a step does (`cost`) with its fan-out, the ratio of output rows to
//! input rows (`io_ratio`). All operations saturate at `u64::MAX`, which stands for an
//! unbounded cost.
use vstd::prelude::*;

verus! {

/// One unit in fixed point.
pub const SCALE: u64 = 1000;

/// The saturated cost that marks an impossible or unbounded step.
pub const INFINITE: u64 = 0xffff_ffff_ffff_ffff;

/// The work of a check on fully bound variables.
pub const TRIVIAL_COST: u64 = 10;

/// The work that the completion heuristic expects of one step, in fixed point.
pub const AVERAGE_STEP_COST: u64 = 1000;

/// The fan-out that the completion heuristic expects of a query, in fixed point.
pub const AVERAGE_QUERY_OUTPUT_SIZE: u64 = 1000;

/// Each produced variable makes the rest of the plan cheaper by this many percent.
pub const VARIABLE_PRODUCTION_ADVANTAGE_PERCENT: u64 = 5;

#[derive(Clone, Copy, Debug, PartialEq, Eq, Structural)]
pub struct Cost {
    pub cost: u64,
    pub io_ratio: u64,
}

/// `x` clamped into `u64`.
pub open spec fn sat(x: int) -> u64 {
    if x > u64::MAX {
        u64::MAX
    } else if x < 0 {
        0
    } else {
        x as u64
    }
}

pub open spec fn chain_spec(a: Cost, b: Cost) -> Cost {
    Cost {
        cost: sat(a.cost + (a.io_ratio * b.cost) / (SCALE as int)),
        io_ratio: sat((a.io_ratio * b.io_ratio) / (SCALE as int)),
    }
}

pub open spec fn join_spec(a: Cost, b: Cost, key_size: u64) -> Cost {
    let k: int = if key_size == 0 { 1 } else { key_size as int };
    let ratio = (a.io_ratio * b.io_ratio) / k;
    Cost {
        cost: sat(a.cost + b.cost),
        io_ratio: if ratio < SCALE { SCALE } else { sat(ratio) },
    }
}

pub open spec fn combine_parallel_spec(a: Cost, b: Cost) -> Cost {
    Cost { cost: sat(a.cost + b.cost), io_ratio: sat(a.io_ratio + b.io_ratio) }
}

/// `c` reduced by the production advantage `n` times over, rounding down each time.
pub open spec fn decayed(c: int, n: nat) -> int
    decreases n,
{
    if n == 0 {
        c
    } else {
        decayed(c, (n - 1) as nat) * (100 - VARIABLE_PRODUCTION_ADVANTAGE_PERCENT) / 100
    }
}

/// The estimated cost of finishing a plan with `remaining` patterns left before this extension,
/// once `produced` variables are bound.
pub open spec fn completion_spec(remaining: nat, produced: nat) -> Cost {
    if remaining == 1 {
        Cost::noop()
    } else {
        Cost {
            cost: sat(decayed(AVERAGE_STEP_COST * remaining, produced)),
            io_ratio: AVERAGE_QUERY_OUTPUT_SIZE,
        }
    }
}

proof fn lemma_decayed_bounds(c: int, n: nat)
    requires
        c >= 0,
    ensures
        0 <= decayed(c, n) <= c,
    decreases n,
{
    if n > 0 {
        lemma_decayed_bounds(c, (n - 1) as nat);
        let d = decayed(c, (n - 1) as nat);
        assert(d * 95 / 100 <= d) by (nonlinear_arith)
            requires
                d >= 0,
        ;
        assert(d * 95 / 100 >= 0) by (nonlinear_arith)
            requires
                d >= 0,
        ;
    }
}

fn clamp_u128(x: u128) -> (r: u64)
    ensures
        r == sat(x as int),
{
    if x > u64::MAX as u128 {
        u64::MAX
    } else {
        x as u64
    }
}

pub(crate) fn mul_wide(a: u64, b: u64) -> (r: u128)
    ensures
        r == a * b,
        r <= (u64::MAX as int) * (u64::MAX as int),
{
    proof {
        assert(a * b <= (u64::MAX as int) * (u64::MAX as int)) by (nonlinear_arith)
            requires
                a <= u64::MAX,
                b <= u64::MAX,
                a >= 0,
                b >= 0,
        ;
    }
    (a as u128) * (b as u128)
}

impl Cost {
    pub open spec fn noop() -> Cost {
        Cost { cost: 0, io_ratio: SCALE }
    }

    /// No work, one output row per input row.
    pub fn new_noop() -> (r: Cost)
        ensures
            r == Cost::noop(),
    {
        Cost { cost: 0, io_ratio: SCALE }
    }

    /// Unbounded work.
    pub fn new_infinite() -> (r: Cost)
        ensures
            r.cost == INFINITE,
            r.io_ratio == SCALE,
    {
        Cost { cost: INFINITE, io_ratio: SCALE }
    }

    /// The cost of a check on bound variables.
    pub fn new_trivial() -> (r: Cost)
        ensures
            r.cost == TRIVIAL_COST,
            r.io_ratio == SCALE,
    {
        Cost { cost: TRIVIAL_COST, io_ratio: SCALE }
    }

    pub open spec fn trivial_spec(&self) -> bool {
        self.cost <= TRIVIAL_COST
    }

    /// A step this cheap is a check on bound variables.
    pub fn is_trivial(&self) -> (r: bool)
        ensures
            r == self.trivial_spec(),
    {
        self.cost <= TRIVIAL_COST
    }

    /// Runs `self`, then `other` once for each row that `self` yields.
    pub fn chain(&self, other: &Cost) -> (r: Cost)
        ensures
            r == chain_spec(*self, *other),
    {
        let fan = mul_wide(self.io_ratio, other.cost) / (SCALE as u128);
        let cost = clamp_u128(self.cost as u128 + fan);
        let io = clamp_u128(mul_wide(self.io_ratio, other.io_ratio) / (SCALE as u128));
        Cost { cost, io_ratio: io }
    }

    /// Merges `self` and `other` on a join key with `key_size` distinct values (fixed point).
    pub fn join(&self, other: &Cost, key_size: u64) -> (r: Cost)
        ensures
            r == join_spec(*self, *other, key_size),
    {
        let k: u128 = if key_size == 0 { 1 } else { key_size as u128 };
        let ratio = mul_wide(self.io_ratio, other.io_ratio) / k;
        let io = if ratio < SCALE as u128 { SCALE } else { clamp_u128(ratio) };
        Cost { cost: clamp_u128(self.cost as u128 + other.cost as u128), io_ratio: io }
    }

    /// Runs `self` and `other` side by side on the same input, as the branches of a disjunction.
    pub fn combine_parallel(&self, other: &Cost) -> (r: Cost)
        ensures
            r == combine_parallel_spec(*self, *other),
    {
        Cost {
            cost: clamp_u128(self.cost as u128 + other.cost as u128),
            io_ratio: clamp_u128(self.io_ratio as u128 + other.io_ratio as u128),
        }
    }
}

/// The heuristic cost of completing a plan that has `remaining` patterns left (this extension
/// included) and binds `produced` variables after the extension.
pub fn completion_cost(remaining: usize, produced: usize) -> (r: Cost)
    ensures
        r == completion_spec(remaining as nat, produced as nat),
{
    if remaining == 1 {
        return Cost::new_noop();
    }
    let start: u128 = mul_wide(AVERAGE_STEP_COST, remaining as u64);
    let mut c: u128 = start;
    let mut i: usize = 0;
    proof {
        lemma_decayed_bounds(start as int, 0);
    }
    while i < produced
        invariant
            i <= produced,
            start == AVERAGE_STEP_COST * remaining,
            c as int == decayed(start as int, i as nat),
            start <= (u64::MAX as int) * (u64::MAX as int),
        decreases produced - i,
    {
        proof {
            lemma_decayed_bounds(start as int, i as nat);
        }
        c = c * 95 / 100;
        i = i + 1;
    }
    Cost { cost: clamp_u128(c), io_ratio: AVERAGE_QUERY_OUTPUT_SIZE }
}

} // verus!
