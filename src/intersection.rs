//! The sorted-intersection step: a k-way merge-join of sorted tuple streams on a sort variable,
//! with cartesian expansion when several streams hold more than one tuple at the same key.
//!
//! Each instruction of the step yields, for one input row, a stream of tuples sorted by key (the
//! value of the sort variable). A tuple carries the values it binds and how many identical
//! copies of it the stream holds.
use vstd::prelude::*;

verus! {

#[derive(Clone, Debug)]
pub struct SortedTuple {
    pub key: u64,
    /// `(position, value)` pairs that the tuple writes into an output row.
    pub values: Vec<(usize, u64)>,
    /// Copies of this tuple in its stream.
    pub count: u64,
}

/// A row of variable values with its multiplicity and the branch it came from.
#[derive(Clone, Debug)]
pub struct Row {
    pub values: Vec<Option<u64>>,
    pub multiplicity: u64,
    pub provenance: u64,
}

pub open spec fn sorted(it: Seq<SortedTuple>) -> bool {
    forall|a: int, b: int| 0 <= a <= b < it.len() ==> it[a].key <= it[b].key
}

/// Each stream is sorted and every tuple is present at least once.
pub open spec fn well_formed_streams(iters: Seq<Vec<SortedTuple>>) -> bool {
    forall|j: int|
        0 <= j < iters.len() ==> sorted(#[trigger] iters[j]@) && forall|t: int|
            0 <= t < iters[j]@.len() ==> iters[j]@[t].count >= 1
}

/// Key `x` occurs in `it` at or after position `p`.
pub open spec fn appears(it: Seq<SortedTuple>, p: int, x: int) -> bool {
    exists|t: int| p <= t < it.len() && #[trigger] it[t].key == x
}

/// Key `x` occurs in every stream at or after its position.
pub open spec fn common(iters: Seq<Vec<SortedTuple>>, pos: Seq<usize>, x: int) -> bool {
    forall|j: int| 0 <= j < iters.len() ==> appears(#[trigger] iters[j]@, pos[j] as int, x)
}

/// The copies of key `x` among the tuples `s..e` of `it`.
pub open spec fn count_in(it: Seq<SortedTuple>, s: int, e: int, x: int) -> nat
    decreases e - s,
{
    if e <= s {
        0
    } else {
        count_in(it, s, e - 1, x) + if it[e - 1].key == x {
            it[e - 1].count as nat
        } else {
            0nat
        }
    }
}

/// The copies of key `x` in `it`.
pub open spec fn key_count(it: Seq<SortedTuple>, x: int) -> nat {
    count_in(it, 0, it.len() as int, x)
}

/// The product of the copies of key `x` over the first `j` streams.
pub open spec fn prod_prefix(iters: Seq<Vec<SortedTuple>>, x: int, j: int) -> nat
    decreases j,
{
    if j <= 0 {
        1
    } else {
        prod_prefix(iters, x, j - 1) * key_count(iters[j - 1]@, x)
    }
}

/// The number of joined rows at key `x`: the product over the streams of their copies of `x`.
pub open spec fn prod_counts(iters: Seq<Vec<SortedTuple>>, x: int) -> nat {
    prod_prefix(iters, x, iters.len() as int)
}

/// The number of joined rows at keys below `b`.
pub open spec fn join_size_below(iters: Seq<Vec<SortedTuple>>, b: int) -> nat
    decreases b,
{
    if b <= 0 {
        0
    } else {
        join_size_below(iters, b - 1) + prod_counts(iters, b - 1)
    }
}

/// The number of rows the join of `iters` yields, counted with multiplicity.
pub open spec fn join_size(iters: Seq<Vec<SortedTuple>>) -> nat {
    join_size_below(iters, u64::MAX as int + 1)
}

/// The tuples still ahead of the positions.
pub open spec fn remaining_tuples(iters: Seq<Vec<SortedTuple>>, pos: Seq<usize>, n: int) -> int
    decreases n,
{
    if n <= 0 {
        0
    } else {
        remaining_tuples(iters, pos, n - 1) + (iters[n - 1]@.len() - pos[n - 1])
    }
}

proof fn lemma_remaining_decreases(
    iters: Seq<Vec<SortedTuple>>,
    a: Seq<usize>,
    b: Seq<usize>,
    n: int,
    j0: int,
)
    requires
        0 <= n <= iters.len(),
        a.len() == iters.len(),
        b.len() == iters.len(),
        forall|j: int| 0 <= j < n ==> #[trigger] a[j] <= b[j] <= iters[j]@.len(),
        0 <= j0 < n,
        a[j0] < b[j0],
    ensures
        remaining_tuples(iters, b, n) < remaining_tuples(iters, a, n),
        remaining_tuples(iters, b, n) >= 0,
    decreases n,
{
    assert(a[n - 1] <= b[n - 1] <= iters[n - 1]@.len());
    if j0 < n - 1 {
        lemma_remaining_decreases(iters, a, b, n - 1, j0);
    } else {
        lemma_remaining_le(iters, a, b, n - 1);
    }
}

proof fn lemma_remaining_le(iters: Seq<Vec<SortedTuple>>, a: Seq<usize>, b: Seq<usize>, n: int)
    requires
        0 <= n <= iters.len(),
        a.len() == iters.len(),
        b.len() == iters.len(),
        forall|j: int| 0 <= j < n ==> #[trigger] a[j] <= b[j] <= iters[j]@.len(),
    ensures
        0 <= remaining_tuples(iters, b, n) <= remaining_tuples(iters, a, n),
    decreases n,
{
    if n > 0 {
        lemma_remaining_le(iters, a, b, n - 1);
        assert(a[n - 1] <= b[n - 1] <= iters[n - 1]@.len());
    }
}

/// Every tuple of `it` from `s` up to `p` has a smaller key than the tuple at `p`.
pub open spec fn skipped_below(it: Seq<SortedTuple>, s: int, p: int) -> bool {
    p < it.len() ==> forall|t: int| s <= t < p ==> #[trigger] it[t].key < it[p].key
}

/// Advances `pos[j]` to the first tuple of stream `j` whose key is at least `target`; false
/// when the stream runs out first.
fn advance_until(iters: &Vec<Vec<SortedTuple>>, pos: &mut Vec<usize>, j: usize, target: u64) -> (r:
    bool)
    requires
        j < iters@.len(),
        old(pos)@.len() == iters@.len(),
        old(pos)@[j as int] <= iters@[j as int]@.len(),
    ensures
        final(pos)@.len() == old(pos)@.len(),
        forall|i: int| 0 <= i < final(pos)@.len() && i != j ==> final(pos)@[i] == old(pos)@[i],
        old(pos)@[j as int] <= final(pos)@[j as int] <= iters@[j as int]@.len(),
        forall|t: int|
            old(pos)@[j as int] <= t < final(pos)@[j as int] ==> iters@[j as int]@[t].key < target,
        r == (final(pos)@[j as int] < iters@[j as int]@.len()),
        r ==> iters@[j as int]@[final(pos)@[j as int] as int].key >= target,
{
    let it = &iters[j];
    let mut p = pos[j];
    while p < it.len() && it[p].key < target
        invariant
            *it == iters@[j as int],
            old(pos)@[j as int] <= p <= it@.len(),
            forall|t: int| old(pos)@[j as int] <= t < p ==> it@[t].key < target,
        decreases it@.len() - p,
    {
        p = p + 1;
    }
    pos.set(j, p);
    p < it.len()
}

/// Moves every stream forward, in lockstep, to the next key they all hold. Returns false, with
/// some stream exhausted, when no key remains that every stream holds. No key that all streams
/// hold at or after their old positions is skipped.
pub fn find_intersection(iters: &Vec<Vec<SortedTuple>>, pos: &mut Vec<usize>) -> (found: bool)
    requires
        iters@.len() >= 1,
        well_formed_streams(iters@),
        old(pos)@.len() == iters@.len(),
        forall|j: int| 0 <= j < iters@.len() ==> old(pos)@[j] <= iters@[j]@.len(),
    ensures
        final(pos)@.len() == iters@.len(),
        forall|j: int|
            0 <= j < iters@.len() ==> old(pos)@[j] <= #[trigger] final(pos)@[j] <= iters@[j]@.len(),
        forall|x: int| common(iters@, old(pos)@, x) ==> common(iters@, final(pos)@, x),
        found ==> forall|j: int|
            0 <= j < iters@.len() ==> final(pos)@[j] < iters@[j]@.len() && iters@[j]@[final(pos)@[j] as int].key
                == iters@[0]@[final(pos)@[0] as int].key,
        !found ==> forall|x: int| !common(iters@, old(pos)@, x),
        forall|j: int|
            0 <= j < iters@.len() ==> #[trigger] skipped_below(iters@[j]@, old(pos)@[j] as int, final(pos)@[j] as int),
        !found ==> exists|j: int| 0 <= j < iters@.len() && final(pos)@[j] == iters@[j]@.len(),
        iters@.len() == 1 ==> final(pos)@ == old(pos)@,
{
    let k = iters.len();
    let ghost start = pos@;
    loop
        invariant
            k == iters@.len(),
            k >= 1,
            well_formed_streams(iters@),
            pos@.len() == k,
            forall|j: int| 0 <= j < k ==> start[j] <= #[trigger] pos@[j] <= iters@[j]@.len(),
            forall|x: int| common(iters@, start, x) ==> common(iters@, pos@, x),
            start == old(pos)@,
            start.len() == k,
            forall|j: int|
                0 <= j < k ==> #[trigger] skipped_below(iters@[j]@, start[j] as int, pos@[j] as int),
            k == 1 ==> pos@ == start,
        decreases remaining_tuples(iters@, pos@, k as int),
    {
        // the largest key at which a stream now stands
        let mut m: usize = 0;
        let mut j: usize = 0;
        while j < k
            invariant
                k == iters@.len(),
                pos@.len() == k,
                j <= k,
                m < k,
                forall|i: int| 0 <= i < k ==> start[i] <= #[trigger] pos@[i] <= iters@[i]@.len(),
                forall|i: int| 0 <= i < j ==> pos@[i] < iters@[i]@.len(),
                well_formed_streams(iters@),
                start == old(pos)@,
                start.len() == k,
                forall|x: int| common(iters@, start, x) ==> common(iters@, pos@, x),
                forall|i: int|
                    0 <= i < k ==> #[trigger] skipped_below(iters@[i]@, start[i] as int, pos@[i] as int),
                k == 1 ==> pos@ == start,
                j > 0 ==> m < j && forall|i: int|
                    0 <= i < j ==> iters@[i]@[pos@[i] as int].key <= iters@[m as int]@[pos@[m as int] as int].key,
            decreases k - j,
        {
            if pos[j] >= iters[j].len() {
                proof {
                    assert forall|x: int| !common(iters@, start, x) by {
                        if common(iters@, start, x) {
                            assert(common(iters@, pos@, x));
                            assert(appears(iters@[j as int]@, pos@[j as int] as int, x));
                        }
                    }
                }
                return false;
            }
            if j == 0 || iters[j][pos[j]].key > iters[m][pos[m]].key {
                m = j;
            }
            j = j + 1;
        }
        let max_key = iters[m][pos[m]].key;
        let ghost before = pos@;
        let mut all_equal = true;
        let mut j: usize = 0;
        while j < k
            invariant
                k == iters@.len(),
                k >= 1,
                well_formed_streams(iters@),
                pos@.len() == k,
                j <= k,
                m < k,
                before.len() == k,
                forall|i: int| 0 <= i < k ==> start[i] <= #[trigger] before[i],
                forall|i: int| 0 <= i < k ==> before[i] <= #[trigger] pos@[i] <= iters@[i]@.len(),
                forall|i: int| 0 <= i < k ==> before[i] < iters@[i]@.len(),
                pos@[m as int] == before[m as int],
                max_key == iters@[m as int]@[before[m as int] as int].key,
                forall|i: int| j <= i < k ==> pos@[i] == before[i],
                forall|i: int|
                    0 <= i < k ==> iters@[i]@[before[i] as int].key <= max_key,
                forall|i: int|
                    0 <= i < j ==> pos@[i] < iters@[i]@.len() && iters@[i]@[pos@[i] as int].key
                        >= max_key,
                all_equal ==> forall|i: int| 0 <= i < j ==> pos@[i] == before[i] && iters@[i]@[pos@[i] as int].key == max_key,
                !all_equal ==> exists|i: int| 0 <= i < j && before[i] < pos@[i],
                forall|x: int| common(iters@, start, x) ==> common(iters@, pos@, x),
                start == old(pos)@,
                start.len() == k,
                forall|i: int|
                    0 <= i < k ==> #[trigger] skipped_below(iters@[i]@, start[i] as int, pos@[i] as int),
                k == 1 ==> pos@ == start && pos@ == before,
            decreases k - j,
        {
            if iters[j][pos[j]].key < max_key {
                let ghost prev = pos@;
                all_equal = false;
                let more = advance_until(iters, pos, j, max_key);
                proof {
                    assert(skipped_below(iters@[j as int]@, start[j as int] as int, prev[j as int] as int));
                    assert forall|i: int| 0 <= i < k implies #[trigger] skipped_below(
                        iters@[i]@,
                        start[i] as int,
                        pos@[i] as int,
                    ) by {
                        if i != j {
                            assert(pos@[i] == prev[i]);
                            assert(skipped_below(iters@[i]@, start[i] as int, prev[i] as int));
                        } else {
                            let it = iters@[i]@;
                            if pos@[i] < it.len() {
                                assert forall|t: int| start[i] <= t < pos@[i] implies #[trigger] it[t].key < it[pos@[i] as int].key by {
                                    if t < prev[i] {
                                        assert(it[t].key < it[prev[i] as int].key);
                                    }
                                }
                            }
                        }
                    }
                    assert forall|i: int| 0 <= i < k implies before[i] <= #[trigger] pos@[i]
                        <= iters@[i]@.len() by {
                        if i != j {
                            assert(pos@[i] == prev[i]);
                        }
                    }
                    assert forall|x: int| common(iters@, start, x) implies common(iters@, pos@, x) by {
                        assert(common(iters@, prev, x));
                        assert(appears(iters@[m as int]@, prev[m as int] as int, x));
                        let t = choose|t: int|
                            prev[m as int] <= t < iters@[m as int]@.len() && #[trigger] iters@[m as int]@[t].key == x;
                        assert(x >= max_key);
                        assert forall|i: int| 0 <= i < k implies appears(#[trigger] iters@[i]@, pos@[i] as int, x) by {
                            assert(appears(iters@[i]@, prev[i] as int, x));
                            if i == j {
                                let tt = choose|tt: int|
                                    prev[i] <= tt < iters@[i]@.len() && #[trigger] iters@[i]@[tt].key == x;
                                assert(tt >= pos@[i]);
                            }
                        }
                    }
                }
                if !more {
                    proof {
                        assert forall|x: int| !common(iters@, start, x) by {
                            if common(iters@, start, x) {
                                assert(common(iters@, pos@, x));
                                assert(appears(iters@[j as int]@, pos@[j as int] as int, x));
                            }
                        }
                    }
                    return false;
                }
            } else {
                proof {
                    assert(iters@[j as int]@[pos@[j as int] as int].key == max_key);
                }
            }
            j = j + 1;
        }
        if all_equal {
            proof {
                assert(iters@[0]@[pos@[0] as int].key == max_key);
            }
            return true;
        }
        proof {
            let i0 = choose|i: int| 0 <= i < j && before[i] < pos@[i];
            lemma_remaining_decreases(iters@, before, pos@, k as int, i0);
        }
    }
}

proof fn lemma_count_in_split(it: Seq<SortedTuple>, s: int, m: int, e: int, x: int)
    requires
        s <= m <= e,
    ensures
        count_in(it, s, m, x) + count_in(it, m, e, x) == count_in(it, s, e, x),
    decreases e - m,
{
    if e > m {
        lemma_count_in_split(it, s, m, e - 1, x);
    }
}

proof fn lemma_count_in_absent(it: Seq<SortedTuple>, s: int, e: int, x: int)
    requires
        forall|t: int| s <= t < e ==> it[t].key != x,
    ensures
        count_in(it, s, e, x) == 0,
    decreases e - s,
{
    if e > s {
        lemma_count_in_absent(it, s, e - 1, x);
    }
}

proof fn lemma_key_count_appears(it: Seq<SortedTuple>, x: int)
    requires
        key_count(it, x) > 0,
    ensures
        appears(it, 0, x),
{
    if !appears(it, 0, x) {
        lemma_count_in_absent(it, 0, it.len() as int, x);
    }
}

/// The rows' multiplicities added up.
pub open spec fn sum_mult(rows: Seq<Row>) -> nat
    decreases rows.len(),
{
    if rows.len() == 0 {
        0
    } else {
        sum_mult(rows.drop_last()) + rows.last().multiplicity as nat
    }
}

proof fn lemma_sum_mult_push(rows: Seq<Row>, r: Row)
    ensures
        sum_mult(rows.push(r)) == sum_mult(rows) + r.multiplicity,
{
    assert(rows.push(r).drop_last() =~= rows);
}

proof fn lemma_sum_mult_concat(a: Seq<Row>, b: Seq<Row>)
    ensures
        sum_mult(a + b) == sum_mult(a) + sum_mult(b),
    decreases b.len(),
{
    if b.len() == 0 {
        assert(a + b =~= a);
    } else {
        lemma_sum_mult_concat(a, b.drop_last());
        assert((a + b).drop_last() =~= a + b.drop_last());
    }
}

proof fn lemma_sum_mult_take(rows: Seq<Row>, i: int)
    requires
        0 <= i < rows.len(),
    ensures
        sum_mult(rows.take(i + 1)) == sum_mult(rows.take(i)) + rows[i].multiplicity,
{
    assert(rows.take(i + 1).drop_last() =~= rows.take(i));
}

#[derive(Clone, Copy, Debug, PartialEq, Eq, Structural)]
pub enum ReadExecutionError {
    /// A row's multiplicity does not fit in 64 bits.
    MultiplicityOverflow,
}

fn checked_product(a: u64, b: u64) -> (r: Option<u64>)
    ensures
        r matches Some(p) ==> p == a * b,
        r is None ==> a * b > u64::MAX,
{
    let wide = crate::cost::mul_wide(a, b);
    if wide > u64::MAX as u128 {
        None
    } else {
        Some(wide as u64)
    }
}

/// `vals` with each `(position, value)` of `pairs` written in turn, positions past the end
/// ignored.
pub open spec fn write_spec(vals: Seq<Option<u64>>, pairs: Seq<(usize, u64)>) -> Seq<Option<u64>>
    decreases pairs.len(),
{
    if pairs.len() == 0 {
        vals
    } else {
        let w = write_spec(vals, pairs.drop_last());
        let (p, v) = pairs.last();
        if p < w.len() {
            w.update(p as int, Some(v))
        } else {
            w
        }
    }
}

proof fn lemma_write_spec_len(vals: Seq<Option<u64>>, pairs: Seq<(usize, u64)>)
    ensures
        write_spec(vals, pairs).len() == vals.len(),
    decreases pairs.len(),
{
    if pairs.len() > 0 {
        lemma_write_spec_len(vals, pairs.drop_last());
    }
}

/// `row` with the values of `t` written over it.
fn write_values(row: &Vec<Option<u64>>, t: &SortedTuple) -> (r: Vec<Option<u64>>)
    ensures
        r@ == write_spec(row@, t.values@),
{
    let mut r = copy_values(row);
    let mut k: usize = 0;
    while k < t.values.len()
        invariant
            k <= t.values@.len(),
            r@ == write_spec(row@, t.values@.take(k as int)),
        decreases t.values@.len() - k,
    {
        let (position, value) = t.values[k];
        proof {
            assert(t.values@.take(k + 1).drop_last() =~= t.values@.take(k as int));
            lemma_write_spec_len(row@, t.values@.take(k as int));
        }
        if position < r.len() {
            r.set(position, Some(value));
        }
        k = k + 1;
    }
    proof {
        assert(t.values@.take(k as int) =~= t.values@);
    }
    r
}

/// A row as values, multiplicity (unbounded) and provenance.
pub type RowView = (Seq<Option<u64>>, int, u64);

pub open spec fn row_view(r: Row) -> RowView {
    (r.values@, r.multiplicity as int, r.provenance)
}

pub open spec fn views(rows: Seq<Row>) -> Seq<RowView> {
    rows.map_values(|r: Row| row_view(r))
}

/// `r` joined with tuple `t`: its values written over, its multiplicity multiplied in.
pub open spec fn extend_one(r: RowView, t: SortedTuple) -> RowView {
    (write_spec(r.0, t.values@), r.1 * t.count, r.2)
}

/// Each row joined with each tuple of `run`, rows varying slowest.
pub open spec fn level(rows: Seq<RowView>, run: Seq<SortedTuple>) -> Seq<RowView>
    decreases rows.len(),
{
    if rows.len() == 0 {
        Seq::empty()
    } else {
        level(rows.drop_last(), run) + run.map_values(|t: SortedTuple| extend_one(rows.last(), t))
    }
}

/// `base` joined with one tuple of each run in every combination, the first run varying
/// slowest.
pub open spec fn expand_spec(base: RowView, runs: Seq<Seq<SortedTuple>>) -> Seq<RowView>
    decreases runs.len(),
{
    if runs.len() == 0 {
        seq![base]
    } else {
        level(expand_spec(base, runs.drop_last()), runs.last())
    }
}

/// The tuples `s..e` of `it` all have key `x`.
pub open spec fn run_of(it: Seq<SortedTuple>, s: int, e: int, x: int) -> bool {
    &&& 0 <= s <= e <= it.len()
    &&& forall|t: int| s <= t < e ==> #[trigger] it[t].key == x
}

/// The product over the first `j` streams of their copies of `x` among tuples `starts..ends`.
pub open spec fn prod_runs(
    iters: Seq<Vec<SortedTuple>>,
    starts: Seq<usize>,
    ends: Seq<usize>,
    x: int,
    j: int,
) -> nat
    decreases j,
{
    if j <= 0 {
        1
    } else {
        prod_runs(iters, starts, ends, x, j - 1) * count_in(
            iters[j - 1]@,
            starts[j - 1] as int,
            ends[j - 1] as int,
            x,
        )
    }
}

/// The runs `starts..ends` of the streams.
pub open spec fn runs_between(iters: Seq<Vec<SortedTuple>>, starts: Seq<usize>, ends: Seq<usize>) -> Seq<
    Seq<SortedTuple>,
> {
    Seq::new(iters.len(), |j: int| iters[j]@.subrange(starts[j] as int, ends[j] as int))
}

proof fn lemma_views_push(rows: Seq<Row>, r: Row)
    ensures
        views(rows.push(r)) == views(rows).push(row_view(r)),
{
    assert(views(rows.push(r)) =~= views(rows).push(row_view(r)));
}

proof fn lemma_level_step(rows: Seq<RowView>, run: Seq<SortedTuple>, i: int)
    requires
        0 <= i < rows.len(),
    ensures
        level(rows.take(i + 1), run) == level(rows.take(i), run) + run.map_values(
            |t: SortedTuple| extend_one(rows[i], t),
        ),
{
    assert(rows.take(i + 1).drop_last() =~= rows.take(i));
}

/// Some row of `rows` has a multiplicity of at least `m`.
pub open spec fn has_large(rows: Seq<RowView>, m: int) -> bool {
    exists|k: int| 0 <= k < rows.len() && #[trigger] rows[k].1 >= m
}

/// Every row's multiplicity fits in 64 bits.
pub open spec fn multiplicities_fit(rows: Seq<RowView>) -> bool {
    forall|i: int| 0 <= i < rows.len() ==> #[trigger] rows[i].1 <= u64::MAX
}

/// Each run holds a tuple, and every tuple at least one copy.
pub open spec fn runs_positive(runs: Seq<Seq<SortedTuple>>) -> bool {
    forall|j: int|
        0 <= j < runs.len() ==> (#[trigger] runs[j]).len() >= 1 && forall|q: int|
            0 <= q < runs[j].len() ==> runs[j][q].count >= 1
}

proof fn lemma_level_contains(rows: Seq<RowView>, run: Seq<SortedTuple>, i: int, q: int)
    requires
        0 <= i < rows.len(),
        0 <= q < run.len(),
    ensures
        level(rows, run).contains(extend_one(rows[i], run[q])),
    decreases rows.len(),
{
    let prefix = level(rows.drop_last(), run);
    let tail = run.map_values(|t: SortedTuple| extend_one(rows.last(), t));
    assert(level(rows, run) == prefix + tail);
    if i == rows.len() - 1 {
        assert((prefix + tail)[prefix.len() + q] == tail[q]);
    } else {
        lemma_level_contains(rows.drop_last(), run, i, q);
        assert(rows.drop_last()[i] == rows[i]);
        let k = choose|k: int| 0 <= k < prefix.len() && prefix[k] == extend_one(rows[i], run[q]);
        assert((prefix + tail)[k] == prefix[k]);
    }
}

proof fn lemma_level_keeps_large(rows: Seq<RowView>, run: Seq<SortedTuple>, m: int)
    requires
        has_large(rows, m),
        m >= 1,
        run.len() >= 1,
        run[0].count >= 1,
    ensures
        has_large(level(rows, run), m),
{
    let k = choose|k: int| 0 <= k < rows.len() && #[trigger] rows[k].1 >= m;
    lemma_level_contains(rows, run, k, 0);
    let big = extend_one(rows[k], run[0]);
    let a = rows[k].1;
    let c = run[0].count as int;
    assert(a * c >= a) by (nonlinear_arith)
        requires
            a >= 1,
            c >= 1,
    ;
    let l = level(rows, run);
    let idx = choose|idx: int| 0 <= idx < l.len() && l[idx] == big;
    assert(l[idx].1 >= m);
}

proof fn lemma_expand_keeps_large(base: RowView, runs: Seq<Seq<SortedTuple>>, j: int, m: int)
    requires
        0 <= j <= runs.len(),
        runs_positive(runs),
        m >= 1,
        has_large(expand_spec(base, runs.take(j)), m),
    ensures
        has_large(expand_spec(base, runs), m),
    decreases runs.len() - j,
{
    if j == runs.len() {
        assert(runs.take(j) =~= runs);
    } else {
        assert(runs.take(j + 1).drop_last() =~= runs.take(j));
        assert(runs.take(j + 1).last() == runs[j]);
        assert(runs[j].len() >= 1);
        lemma_level_keeps_large(expand_spec(base, runs.take(j)), runs[j], m);
        lemma_expand_keeps_large(base, runs, j + 1, m);
    }
}

/// Every combination of one tuple from each stream's run at key `x`, the first stream varying
/// slowest; each row's multiplicity is the product of its tuples' copies.
fn expand(
    input: &Row,
    iters: &Vec<Vec<SortedTuple>>,
    starts: &Vec<usize>,
    ends: &Vec<usize>,
    Ghost(x): Ghost<int>,
) -> (r: Result<Vec<Row>, ReadExecutionError>)
    requires
        input.multiplicity == 1,
        well_formed_streams(iters@),
        starts@.len() == iters@.len(),
        ends@.len() == iters@.len(),
        forall|j: int|
            0 <= j < iters@.len() ==> #[trigger] run_of(iters@[j]@, starts@[j] as int, ends@[j] as int, x)
                && starts@[j] < ends@[j],
    ensures
        r is Err ==> has_large(
            expand_spec(row_view(*input), runs_between(iters@, starts@, ends@)),
            u64::MAX as int + 1,
        ),
        r matches Ok(rows) ==> views(rows@) == expand_spec(
            row_view(*input),
            runs_between(iters@, starts@, ends@),
        ),
        r matches Ok(rows) ==> sum_mult(rows@) == prod_runs(
            iters@,
            starts@,
            ends@,
            x,
            iters@.len() as int,
        ) && forall|i: int|
            0 <= i < rows@.len() ==> (#[trigger] rows@[i]).values@.len() == input.values@.len(),
        r matches Ok(rows) ==> (iters@.len() == 1 ==> rows@.len() == ends@[0] - starts@[0] && forall|
            i: int,
        |
            0 <= i < rows@.len() ==> (#[trigger] rows@[i]).multiplicity == iters@[0]@[starts@[0] + i].count),
{
    let ghost runs = runs_between(iters@, starts@, ends@);
    let ghost base_view = row_view(*input);
    proof {
        assert(runs.len() == iters@.len());
        assert forall|jj: int| 0 <= jj < runs.len() implies (#[trigger] runs[jj]).len() >= 1 && forall|q: int|
            0 <= q < runs[jj].len() ==> runs[jj][q].count >= 1 by {
            assert(run_of(iters@[jj]@, starts@[jj] as int, ends@[jj] as int, x) && starts@[jj] < ends@[jj]);
            assert(sorted(iters@[jj]@));
            assert forall|q: int| 0 <= q < runs[jj].len() implies runs[jj][q].count >= 1 by {
                assert(runs[jj][q] == iters@[jj]@[starts@[jj] + q]);
            }
        }
    }
    let mut rows: Vec<Row> = Vec::new();
    rows.push(Row { values: copy_values(&input.values), multiplicity: 1, provenance: input.provenance });
    proof {
        assert(rows@.drop_last() =~= Seq::<Row>::empty());
        assert(sum_mult(Seq::<Row>::empty()) == 0);
        assert(sum_mult(rows@) == 1);
        assert(runs.take(0) =~= Seq::<Seq<SortedTuple>>::empty());
        assert(views(rows@) =~= seq![base_view]);
    }
    let k = iters.len();
    let mut j: usize = 0;
    while j < k
        invariant
            k == iters@.len(),
            j <= k,
            starts@.len() == k,
            ends@.len() == k,
            runs == runs_between(iters@, starts@, ends@),
            runs_positive(runs),
            base_view == row_view(*input),
            forall|jj: int|
                0 <= jj < k ==> #[trigger] run_of(iters@[jj]@, starts@[jj] as int, ends@[jj] as int, x),
            views(rows@) == expand_spec(base_view, runs.take(j as int)),
            sum_mult(rows@) == prod_runs(iters@, starts@, ends@, x, j as int),
            forall|i: int| 0 <= i < rows@.len() ==> (#[trigger] rows@[i]).values@.len() == input.values@.len(),
            j == 0 ==> rows@.len() == 1 && rows@[0].multiplicity == 1,
            j == 1 && k == 1 ==> rows@.len() == ends@[0] - starts@[0] && forall|i: int|
                0 <= i < rows@.len() ==> (#[trigger] rows@[i]).multiplicity == iters@[0]@[starts@[0] + i].count,
        decreases k - j,
    {
        let it = &iters[j];
        let s = starts[j];
        let e = ends[j];
        assert(run_of(iters@[j as int]@, starts@[j as int] as int, ends@[j as int] as int, x));
        let ghost run = count_in(it@, s as int, e as int, x);
        let ghost tuples = it@.subrange(s as int, e as int);
        let ghost rv = views(rows@);
        let mut next: Vec<Row> = Vec::new();
        proof {
            assert(rows@.take(0) =~= Seq::<Row>::empty());
            assert(sum_mult(Seq::<Row>::empty()) == 0);
            assert(rv.take(0) =~= Seq::<RowView>::empty());
            assert(views(next@) =~= level(rv.take(0), tuples));
        }
        let mut i: usize = 0;
        while i < rows.len()
            invariant
                j < iters@.len(),
                *it == iters@[j as int],
                s <= e <= it@.len(),
                forall|t: int| s <= t < e ==> #[trigger] it@[t].key == x,
                run == count_in(it@, s as int, e as int, x),
                tuples == it@.subrange(s as int, e as int),
                runs == runs_between(iters@, starts@, ends@),
                runs_positive(runs),
                tuples == runs[j as int],
                j < runs.len(),
                base_view == row_view(*input),
                rv == expand_spec(base_view, runs.take(j as int)),
                rv == views(rows@),
                i <= rows@.len(),
                views(next@) == level(rv.take(i as int), tuples),
                sum_mult(next@) == sum_mult(rows@.take(i as int)) * run,
                forall|m: int| 0 <= m < rows@.len() ==> (#[trigger] rows@[m]).values@.len() == input.values@.len(),
                forall|m: int| 0 <= m < next@.len() ==> (#[trigger] next@[m]).values@.len() == input.values@.len(),
                rows@.len() == 1 && rows@[0].multiplicity == 1 ==> (i == 0 ==> next@.len() == 0) && (i == 1
                    ==> next@.len() == e - s && forall|m: int|
                    0 <= m < next@.len() ==> (#[trigger] next@[m]).multiplicity == it@[s + m].count),
            decreases rows@.len() - i,
        {
            let base = &rows[i];
            let ghost before_row = next@;
            let ghost bv = rv[i as int];
            proof {
                assert(count_in(it@, s as int, s as int, x) == 0);
                assert(base.multiplicity * 0 == 0);
                assert(bv == row_view(*base));
                assert(tuples.take(0).map_values(|tt: SortedTuple| extend_one(bv, tt)) =~= Seq::<RowView>::empty());
                assert(views(next@) =~= views(before_row) + tuples.take(0).map_values(|tt: SortedTuple| extend_one(bv, tt)));
            }
            let mut t: usize = s;
            while t < e
                invariant
                    j < iters@.len(),
                    *it == iters@[j as int],
                    s <= t <= e <= it@.len(),
                    forall|tt: int| s <= tt < e ==> #[trigger] it@[tt].key == x,
                    tuples == it@.subrange(s as int, e as int),
                    runs == runs_between(iters@, starts@, ends@),
                    runs_positive(runs),
                    tuples == runs[j as int],
                    j < runs.len(),
                    base_view == row_view(*input),
                    rv == expand_spec(base_view, runs.take(j as int)),
                    i < rv.len(),
                    bv == rv[i as int],
                    *base == rows@[i as int],
                    bv == row_view(*base),
                    base.values@.len() == input.values@.len(),
                    views(next@) == views(before_row) + tuples.take(t - s).map_values(
                        |tt: SortedTuple| extend_one(bv, tt),
                    ),
                    sum_mult(next@) == sum_mult(before_row) + base.multiplicity * count_in(it@, s as int, t as int, x),
                    next@.len() == before_row.len() + (t - s),
                    forall|m: int| 0 <= m < before_row.len() ==> next@[m] == before_row[m],
                    forall|m: int| 0 <= m < next@.len() ==> (#[trigger] next@[m]).values@.len() == input.values@.len(),
                    base.multiplicity == 1 ==> forall|m: int|
                        before_row.len() <= m < next@.len() ==> (#[trigger] next@[m]).multiplicity == it@[s + m - before_row.len()].count,
                decreases e - t,
            {
                let tuple = &it[t];
                let m = match checked_product(base.multiplicity, tuple.count) {
                    Some(m) => m,
                    None => {
                        proof {
                            lemma_level_contains(rv, tuples, i as int, t - s);
                            assert(tuples[t - s] == *tuple);
                            let big = extend_one(bv, *tuple);
                            let l = level(rv, tuples);
                            let idx = choose|idx: int| 0 <= idx < l.len() && l[idx] == big;
                            assert(l[idx].1 >= u64::MAX as int + 1);
                            assert(runs.take(j + 1).drop_last() =~= runs.take(j as int));
                            assert(runs.take(j + 1).last() == tuples);
                            assert(l == expand_spec(base_view, runs.take(j + 1)));
                            lemma_expand_keeps_large(base_view, runs, j + 1, u64::MAX as int + 1);
                        }
                        return Err(ReadExecutionError::MultiplicityOverflow);
                    },
                };
                let ghost prev = next@;
                let new_row = Row { values: write_values(&base.values, tuple), multiplicity: m, provenance: base.provenance };
                proof {
                    lemma_write_spec_len(base.values@, tuple.values@);
                }
                next.push(new_row);
                proof {
                    lemma_sum_mult_push(prev, new_row);
                    lemma_views_push(prev, new_row);
                    assert(tuples[t - s] == *tuple);
                    assert(row_view(new_row) == extend_one(bv, *tuple));
                    assert(tuples.take(t + 1 - s) =~= tuples.take(t - s).push(*tuple));
                    assert(views(next@) =~= views(before_row) + tuples.take(t + 1 - s).map_values(
                        |tt: SortedTuple| extend_one(bv, tt),
                    ));
                    assert(it@[t as int].key == x);
                    let c0 = count_in(it@, s as int, t as int, x);
                    assert(count_in(it@, s as int, t + 1, x) == c0 + tuple.count);
                    let bm = base.multiplicity as int;
                    assert(bm * (c0 + tuple.count) == bm * c0 + bm * tuple.count) by (nonlinear_arith);
                    if base.multiplicity == 1 {
                        assert(m == tuple.count);
                        assert forall|mm: int|
                            before_row.len() <= mm < next@.len() implies (#[trigger] next@[mm]).multiplicity
                                == it@[s + mm - before_row.len()].count by {
                            if mm < next@.len() - 1 {
                                assert(next@[mm] == prev[mm]);
                            }
                        }
                    }
                }
                t = t + 1;
            }
            proof {
                lemma_sum_mult_take(rows@, i as int);
                let a = sum_mult(rows@.take(i as int)) as int;
                let bm = rows@[i as int].multiplicity as int;
                assert((a + bm) * run == a * run + bm * run) by (nonlinear_arith);
                assert(tuples.take(e - s) =~= tuples);
                lemma_level_step(rv, tuples, i as int);
            }
            i = i + 1;
        }
        proof {
            assert(rows@.take(rows@.len() as int) =~= rows@);
            assert(rv.take(rv.len() as int) =~= rv);
            assert(runs.take(j + 1).drop_last() =~= runs.take(j as int));
            assert(runs.take(j + 1).last() == tuples);
        }
        rows = next;
        j = j + 1;
    }
    proof {
        assert(runs.take(k as int) =~= runs);
    }
    Ok(rows)
}

fn copy_values(v: &Vec<Option<u64>>) -> (r: Vec<Option<u64>>)
    ensures
        r@ == v@,
{
    let mut r: Vec<Option<u64>> = Vec::new();
    let mut i: usize = 0;
    while i < v.len()
        invariant
            i <= v@.len(),
            r@ == v@.take(i as int),
        decreases v@.len() - i,
    {
        r.push(v[i]);
        proof {
            assert(r@ =~= v@.take(i + 1));
        }
        i = i + 1;
    }
    proof {
        assert(v@.take(i as int) =~= v@);
    }
    r
}

/// The end of the run of tuples that share the key of the tuple at `p`.
fn run_end(it: &Vec<SortedTuple>, p: usize) -> (e: usize)
    requires
        sorted(it@),
        p < it@.len(),
    ensures
        p < e <= it@.len(),
        run_of(it@, p as int, e as int, it@[p as int].key as int),
        e < it@.len() ==> it@[e as int].key > it@[p as int].key,
{
    let key = it[p].key;
    let n = it.len();
    let mut e = p + 1;
    while e < it.len() && it[e].key == key
        invariant
            p < e <= it@.len(),
            key == it@[p as int].key,
            forall|t: int| p <= t < e ==> #[trigger] it@[t].key == key,
        decreases it@.len() - e,
    {
        e = e + 1;
    }
    e
}

proof fn lemma_gap(iters: Seq<Vec<SortedTuple>>, lo: int, hi: int)
    requires
        0 <= lo <= hi,
        forall|x: int| lo <= x < hi ==> prod_counts(iters, x) == 0,
    ensures
        join_size_below(iters, hi) == join_size_below(iters, lo),
    decreases hi - lo,
{
    if hi > lo {
        lemma_gap(iters, lo, hi - 1);
    }
}

proof fn lemma_prod_positive(iters: Seq<Vec<SortedTuple>>, x: int, j: int)
    requires
        0 <= j <= iters.len(),
        prod_prefix(iters, x, j) > 0,
    ensures
        forall|i: int| 0 <= i < j ==> key_count(#[trigger] iters[i]@, x) > 0,
    decreases j,
{
    if j > 0 {
        let a = prod_prefix(iters, x, j - 1);
        let b = key_count(iters[j - 1]@, x);
        assert(a > 0 && b > 0) by (nonlinear_arith)
            requires
                a * b > 0,
                a >= 0,
                b >= 0,
        ;
        lemma_prod_positive(iters, x, j - 1);
    }
}

proof fn lemma_runs_are_counts(
    iters: Seq<Vec<SortedTuple>>,
    starts: Seq<usize>,
    ends: Seq<usize>,
    x: int,
    j: int,
)
    requires
        0 <= j <= iters.len(),
        forall|i: int|
            0 <= i < j ==> key_count(#[trigger] iters[i]@, x) == count_in(
                iters[i]@,
                starts[i] as int,
                ends[i] as int,
                x,
            ),
    ensures
        prod_runs(iters, starts, ends, x, j) == prod_prefix(iters, x, j),
    decreases j,
{
    if j > 0 {
        lemma_runs_are_counts(iters, starts, ends, x, j - 1);
        assert(key_count(iters[j - 1]@, x) == count_in(
            iters[j - 1]@,
            starts[j - 1] as int,
            ends[j - 1] as int,
            x,
        ));
    }
}

/// The tuples `lo..hi` of `it` with key `x`, in order.
pub open spec fn run_in(it: Seq<SortedTuple>, lo: int, hi: int, x: int) -> Seq<SortedTuple>
    decreases hi - lo,
{
    if hi <= lo {
        Seq::empty()
    } else if it[hi - 1].key == x {
        run_in(it, lo, hi - 1, x).push(it[hi - 1])
    } else {
        run_in(it, lo, hi - 1, x)
    }
}

/// Each stream's tuples with key `x`.
pub open spec fn runs_at(iters: Seq<Vec<SortedTuple>>, x: int) -> Seq<Seq<SortedTuple>> {
    Seq::new(iters.len(), |j: int| run_in(iters[j]@, 0, iters[j]@.len() as int, x))
}

/// The rows `base` yields at keys below `b`, key by key in ascending order.
pub open spec fn rows_below(base: RowView, iters: Seq<Vec<SortedTuple>>, b: int) -> Seq<RowView>
    decreases b,
{
    if b <= 0 {
        Seq::empty()
    } else {
        rows_below(base, iters, b - 1) + expand_spec(base, runs_at(iters, b - 1))
    }
}

/// The rows an input row with view `base` yields when joined with `iters`.
pub open spec fn join_rows(base: RowView, iters: Seq<Vec<SortedTuple>>) -> Seq<RowView> {
    rows_below(base, iters, u64::MAX as int + 1)
}

/// The view an input row starts its join from: its values and provenance, multiplicity one. An
/// intersection row's multiplicity is the product of the copies its tuples stand for, per the
/// intersection step's definition of multiplicity; the input row's own multiplicity is not
/// folded in.
pub open spec fn join_base(input: Row) -> RowView {
    (input.values@, 1, input.provenance)
}

proof fn lemma_run_in_split(it: Seq<SortedTuple>, lo: int, m: int, hi: int, x: int)
    requires
        lo <= m <= hi,
    ensures
        run_in(it, lo, m, x) + run_in(it, m, hi, x) == run_in(it, lo, hi, x),
    decreases hi - m,
{
    if hi > m {
        lemma_run_in_split(it, lo, m, hi - 1, x);
        assert(run_in(it, lo, m, x) + run_in(it, m, hi - 1, x).push(it[hi - 1]) =~= (run_in(
            it,
            lo,
            m,
            x,
        ) + run_in(it, m, hi - 1, x)).push(it[hi - 1]));
    } else {
        assert(run_in(it, lo, m, x) + run_in(it, m, hi, x) =~= run_in(it, lo, m, x));
    }
}

proof fn lemma_run_in_absent(it: Seq<SortedTuple>, lo: int, hi: int, x: int)
    requires
        forall|t: int| lo <= t < hi ==> it[t].key != x,
    ensures
        run_in(it, lo, hi, x) == Seq::<SortedTuple>::empty(),
    decreases hi - lo,
{
    if hi > lo {
        lemma_run_in_absent(it, lo, hi - 1, x);
    }
}

proof fn lemma_run_in_all(it: Seq<SortedTuple>, lo: int, hi: int, x: int)
    requires
        0 <= lo <= hi <= it.len(),
        forall|t: int| lo <= t < hi ==> it[t].key == x,
    ensures
        run_in(it, lo, hi, x) == it.subrange(lo, hi),
    decreases hi - lo,
{
    if hi > lo {
        lemma_run_in_all(it, lo, hi - 1, x);
        assert(it.subrange(lo, hi - 1).push(it[hi - 1]) =~= it.subrange(lo, hi));
    } else {
        assert(it.subrange(lo, hi) =~= Seq::<SortedTuple>::empty());
    }
}

proof fn lemma_level_of_empty_run(rows: Seq<RowView>, run: Seq<SortedTuple>)
    requires
        run.len() == 0,
    ensures
        level(rows, run) == Seq::<RowView>::empty(),
    decreases rows.len(),
{
    if rows.len() > 0 {
        lemma_level_of_empty_run(rows.drop_last(), run);
        assert(run.map_values(|t: SortedTuple| extend_one(rows.last(), t)) =~= Seq::<RowView>::empty());
        assert(Seq::<RowView>::empty() + Seq::<RowView>::empty() =~= Seq::<RowView>::empty());
    }
}

proof fn lemma_expand_with_empty_run(base: RowView, runs: Seq<Seq<SortedTuple>>, j: int)
    requires
        0 <= j < runs.len(),
        runs[j].len() == 0,
    ensures
        expand_spec(base, runs) == Seq::<RowView>::empty(),
    decreases runs.len(),
{
    if j == runs.len() - 1 {
        lemma_level_of_empty_run(expand_spec(base, runs.drop_last()), runs.last());
    } else {
        lemma_expand_with_empty_run(base, runs.drop_last(), j);
        assert(level(Seq::<RowView>::empty(), runs.last()) == Seq::<RowView>::empty());
    }
}

proof fn lemma_rows_gap(base: RowView, iters: Seq<Vec<SortedTuple>>, lo: int, hi: int)
    requires
        0 <= lo <= hi,
        forall|x: int| lo <= x < hi ==> expand_spec(base, #[trigger] runs_at(iters, x)) == Seq::<RowView>::empty(),
    ensures
        rows_below(base, iters, hi) == rows_below(base, iters, lo),
    decreases hi - lo,
{
    if hi > lo {
        lemma_rows_gap(base, iters, lo, hi - 1);
        assert(expand_spec(base, runs_at(iters, hi - 1)) == Seq::<RowView>::empty());
        assert(rows_below(base, iters, hi - 1) + Seq::<RowView>::empty() =~= rows_below(base, iters, hi - 1));
    }
}

/// Where some stream lacks key `x`, the join yields nothing at `x`.
proof fn lemma_missing_key(base: RowView, iters: Seq<Vec<SortedTuple>>, x: int, j: int)
    requires
        0 <= j < iters.len(),
        !appears(iters[j]@, 0, x),
    ensures
        expand_spec(base, runs_at(iters, x)) == Seq::<RowView>::empty(),
{
    assert forall|t: int| 0 <= t < iters[j]@.len() implies iters[j]@[t].key != x by {
        if iters[j]@[t].key == x {
            assert(appears(iters[j]@, 0, x));
        }
    }
    lemma_run_in_absent(iters[j]@, 0, iters[j]@.len() as int, x);
    lemma_expand_with_empty_run(base, runs_at(iters, x), j);
}

proof fn lemma_views_concat(a: Seq<Row>, b: Seq<Row>)
    ensures
        views(a + b) == views(a) + views(b),
{
    assert(views(a + b) =~= views(a) + views(b));
}

proof fn lemma_rows_below_keeps_large(
    base: RowView,
    iters: Seq<Vec<SortedTuple>>,
    b: int,
    b2: int,
    m: int,
)
    requires
        0 <= b <= b2,
        has_large(rows_below(base, iters, b), m),
    ensures
        has_large(rows_below(base, iters, b2), m),
    decreases b2 - b,
{
    if b2 > b {
        lemma_rows_below_keeps_large(base, iters, b, b2 - 1, m);
        let prev = rows_below(base, iters, b2 - 1);
        let k = choose|k: int| 0 <= k < prev.len() && #[trigger] prev[k].1 >= m;
        let next = prev + expand_spec(base, runs_at(iters, b2 - 1));
        assert(next[k] == prev[k]);
    }
}

/// The rows that one input row yields: for each key that every stream holds, in ascending
/// order, every combination of one tuple per stream at that key, the first stream varying
/// slowest. Their multiplicities add up to the size of the join; with a single stream each
/// tuple passes through as one row.
pub fn intersect_row(input: &Row, iters: &Vec<Vec<SortedTuple>>) -> (r: Result<
    Vec<Row>,
    ReadExecutionError,
>)
    requires
        iters@.len() >= 1,
        well_formed_streams(iters@),
    ensures
        r is Ok <==> multiplicities_fit(join_rows(join_base(*input), iters@)),
        r matches Ok(rows) ==> views(rows@) == join_rows(join_base(*input), iters@),
        r matches Ok(rows) ==> sum_mult(rows@) == join_size(iters@),
        r matches Ok(rows) ==> forall|i: int|
            0 <= i < rows@.len() ==> (#[trigger] rows@[i]).values@.len() == input.values@.len(),
        r matches Ok(rows) ==> (iters@.len() == 1 ==> rows@.len() == iters@[0]@.len() && forall|
            i: int,
        |
            0 <= i < rows@.len() ==> (#[trigger] rows@[i]).multiplicity == iters@[0]@[i].count),
{
    let k = iters.len();
    let mut pos: Vec<usize> = Vec::new();
    let mut j: usize = 0;
    while j < k
        invariant
            j <= k,
            pos@.len() == j,
            forall|i: int| 0 <= i < j ==> pos@[i] == 0,
        decreases k - j,
    {
        pos.push(0);
        j = j + 1;
    }
    let base = Row { values: copy_values(&input.values), multiplicity: 1, provenance: input.provenance };
    let mut out: Vec<Row> = Vec::new();
    let ghost mut lower: int = 0;
    proof {
        assert(sum_mult(out@) == 0);
        assert(views(out@) =~= Seq::<RowView>::empty());
        assert(row_view(base) == join_base(*input));
    }
    loop
        invariant
            row_view(base) == join_base(*input),
            views(out@) == rows_below(join_base(*input), iters@, lower),
            k == iters@.len(),
            k >= 1,
            well_formed_streams(iters@),
            base.multiplicity == 1,
            base.values@ == input.values@,
            pos@.len() == k,
            forall|i: int| 0 <= i < k ==> #[trigger] pos@[i] <= iters@[i]@.len(),
            forall|i: int, t: int|
                0 <= i < k && 0 <= t < pos@[i] ==> #[trigger] iters@[i]@[t].key < lower,
            forall|i: int|
                0 <= i < k && pos@[i] < iters@[i]@.len() ==> iters@[i]@[#[trigger] pos@[i] as int].key >= lower,
            0 <= lower <= u64::MAX as int + 1,
            sum_mult(out@) == join_size_below(iters@, lower),
            forall|i: int| 0 <= i < out@.len() ==> (#[trigger] out@[i]).values@.len() == input.values@.len(),
            k == 1 ==> out@.len() == pos@[0] && forall|i: int|
                0 <= i < out@.len() ==> (#[trigger] out@[i]).multiplicity == iters@[0]@[i].count,
        decreases remaining_tuples(iters@, pos@, k as int),
    {
        let ghost old_pos = pos@;
        let found = find_intersection(iters, &mut pos);
        if !found {
            proof {
                assert forall|x: int| lower <= x < u64::MAX as int + 1 implies prod_counts(iters@, x) == 0 by {
                    if prod_counts(iters@, x) > 0 {
                        lemma_prod_positive(iters@, x, k as int);
                        assert forall|i: int| 0 <= i < k implies appears(#[trigger] iters@[i]@, old_pos[i] as int, x) by {
                            assert(key_count(iters@[i]@, x) > 0);
                            lemma_key_count_appears(iters@[i]@, x);
                            let t = choose|t: int| 0 <= t < iters@[i]@.len() && #[trigger] iters@[i]@[t].key == x;
                            if t < old_pos[i] {
                                assert(iters@[i]@[t].key < lower);
                            }
                        }
                        assert(common(iters@, old_pos, x));
                    }
                }
                lemma_gap(iters@, lower, u64::MAX as int + 1);
                assert forall|x: int| lower <= x < u64::MAX as int + 1 implies expand_spec(
                    join_base(*input),
                    #[trigger] runs_at(iters@, x),
                ) == Seq::<RowView>::empty() by {
                    if forall|i: int| 0 <= i < k ==> appears(#[trigger] iters@[i]@, 0, x) {
                        assert forall|i: int| 0 <= i < k implies appears(#[trigger] iters@[i]@, old_pos[i] as int, x) by {
                            assert(appears(iters@[i]@, 0, x));
                            let t = choose|t: int| 0 <= t < iters@[i]@.len() && #[trigger] iters@[i]@[t].key == x;
                            if t < old_pos[i] {
                                assert(iters@[i]@[t].key < lower);
                            }
                        }
                        assert(common(iters@, old_pos, x));
                    } else {
                        let j = choose|j: int| 0 <= j < k && !appears(#[trigger] iters@[j]@, 0, x);
                        lemma_missing_key(join_base(*input), iters@, x, j);
                    }
                }
                lemma_rows_gap(join_base(*input), iters@, lower, u64::MAX as int + 1);
                if k == 1 {
                    let jj = choose|jj: int| 0 <= jj < k && pos@[jj] == iters@[jj]@.len();
                    assert(jj == 0);
                }
            }
            proof {
                let all = join_rows(join_base(*input), iters@);
                assert forall|i: int| 0 <= i < all.len() implies #[trigger] all[i].1 <= u64::MAX by {
                    assert(all[i] == views(out@)[i]);
                    assert(views(out@)[i] == row_view(out@[i]));
                }
            }
            return Ok(out);
        }
        let v = iters[0][pos[0]].key;
        proof {
            assert(sorted(iters@[0]@));
            assert(old_pos[0] <= pos@[0]);
            if old_pos[0] < pos@[0] {
                assert(iters@[0]@[old_pos[0] as int].key <= v);
            }
            assert(iters@[0]@[old_pos[0] as int].key >= lower);
        }
        let mut ends: Vec<usize> = Vec::new();
        let mut j: usize = 0;
        while j < k
            invariant
                k == iters@.len(),
                well_formed_streams(iters@),
                pos@.len() == k,
                j <= k,
                ends@.len() == j,
                forall|i: int|
                    0 <= i < k ==> pos@[i] < iters@[i]@.len() && iters@[i]@[pos@[i] as int].key == v,
                forall|i: int|
                    0 <= i < j ==> #[trigger] run_of(iters@[i]@, pos@[i] as int, ends@[i] as int, v as int)
                        && pos@[i] < ends@[i] && (ends@[i] < iters@[i]@.len() ==> iters@[i]@[ends@[i] as int].key > v),
            decreases k - j,
        {
            assert(sorted(iters@[j as int]@));
            let e = run_end(&iters[j], pos[j]);
            let ghost prev_ends = ends@;
            ends.push(e);
            proof {
                assert forall|i: int|
                    0 <= i < j + 1 implies #[trigger] run_of(iters@[i]@, pos@[i] as int, ends@[i] as int, v as int)
                        && pos@[i] < ends@[i] && (ends@[i] < iters@[i]@.len() ==> iters@[i]@[ends@[i] as int].key > v) by {
                    if i < j {
                        assert(ends@[i] == prev_ends[i]);
                    } else {
                        assert(ends@[i] == e);
                        assert(iters@[i]@[pos@[i] as int].key == v);
                    }
                }
            }
            j = j + 1;
        }
        proof {
            assert forall|i: int| 0 <= i < k implies #[trigger] runs_between(iters@, pos@, ends@)[i]
                == runs_at(iters@, v as int)[i] by {
                let it = iters@[i]@;
                assert(sorted(it));
                assert(run_of(it, pos@[i] as int, ends@[i] as int, v as int));
                assert(skipped_below(it, old_pos[i] as int, pos@[i] as int));
                lemma_run_in_split(it, 0, pos@[i] as int, it.len() as int, v as int);
                lemma_run_in_split(it, pos@[i] as int, ends@[i] as int, it.len() as int, v as int);
                assert forall|t: int| 0 <= t < pos@[i] implies it[t].key != v by {
                    if t < old_pos[i] {
                        assert(iters@[i]@[t].key < lower);
                        assert(it[old_pos[i] as int].key >= lower);
                        assert(it[old_pos[i] as int].key <= v);
                    } else {
                        assert(it[t].key < it[pos@[i] as int].key);
                    }
                }
                lemma_run_in_absent(it, 0, pos@[i] as int, v as int);
                assert forall|t: int| ends@[i] <= t < it.len() implies it[t].key != v by {
                    assert(it[ends@[i] as int].key <= it[t].key);
                }
                lemma_run_in_absent(it, ends@[i] as int, it.len() as int, v as int);
                lemma_run_in_all(it, pos@[i] as int, ends@[i] as int, v as int);
                assert(Seq::<SortedTuple>::empty() + it.subrange(pos@[i] as int, ends@[i] as int) + Seq::<SortedTuple>::empty()
                    =~= it.subrange(pos@[i] as int, ends@[i] as int));
            }
            assert(runs_between(iters@, pos@, ends@) =~= runs_at(iters@, v as int));
        }
        let mut rows = match expand(&base, iters, &pos, &ends, Ghost(v as int)) {
            Ok(rows) => rows,
            Err(e) => {
                proof {
                    let small = rows_below(join_base(*input), iters@, v as int);
                    let here = expand_spec(join_base(*input), runs_at(iters@, v as int));
                    assert(rows_below(join_base(*input), iters@, v + 1) == small + here);
                    let k0 = choose|k0: int| 0 <= k0 < here.len() && #[trigger] here[k0].1 >= u64::MAX as int + 1;
                    assert((small + here)[small.len() + k0] == here[k0]);
                    assert(has_large(rows_below(join_base(*input), iters@, v + 1), u64::MAX as int + 1));
                    lemma_rows_below_keeps_large(join_base(*input), iters@, v + 1, u64::MAX as int + 1, u64::MAX as int + 1);
                    let bad = join_rows(join_base(*input), iters@);
                    let kb = choose|kb: int| 0 <= kb < bad.len() && #[trigger] bad[kb].1 >= u64::MAX as int + 1;
                    assert(!multiplicities_fit(bad));
                }
                return Err(e);
            },
        };
        proof {
            assert forall|i: int| 0 <= i < k implies key_count(#[trigger] iters@[i]@, v as int) == count_in(
                iters@[i]@,
                pos@[i] as int,
                ends@[i] as int,
                v as int,
            ) by {
                let it = iters@[i]@;
                assert(sorted(it));
                assert(run_of(it, pos@[i] as int, ends@[i] as int, v as int));
                lemma_count_in_split(it, 0, pos@[i] as int, it.len() as int, v as int);
                lemma_count_in_split(it, pos@[i] as int, ends@[i] as int, it.len() as int, v as int);
                assert(skipped_below(it, old_pos[i] as int, pos@[i] as int));
                assert forall|t: int| 0 <= t < pos@[i] implies it[t].key != v by {
                    if t < old_pos[i] {
                        assert(iters@[i]@[t].key < lower);
                        assert(it[old_pos[i] as int].key >= lower);
                        assert(it[old_pos[i] as int].key <= v);
                    } else {
                        assert(it[t].key < it[pos@[i] as int].key);
                    }
                }
                lemma_count_in_absent(it, 0, pos@[i] as int, v as int);
                assert forall|t: int| ends@[i] <= t < it.len() implies it[t].key != v by {
                    assert(it[ends@[i] as int].key <= it[t].key);
                }
                lemma_count_in_absent(it, ends@[i] as int, it.len() as int, v as int);
            }
            lemma_runs_are_counts(iters@, pos@, ends@, v as int, k as int);
            assert forall|x: int| lower <= x < v implies prod_counts(iters@, x) == 0 by {
                if prod_counts(iters@, x) > 0 {
                    lemma_prod_positive(iters@, x, k as int);
                    assert forall|i: int| 0 <= i < k implies appears(#[trigger] iters@[i]@, old_pos[i] as int, x) by {
                        assert(key_count(iters@[i]@, x) > 0);
                        lemma_key_count_appears(iters@[i]@, x);
                        let t = choose|t: int| 0 <= t < iters@[i]@.len() && #[trigger] iters@[i]@[t].key == x;
                        if t < old_pos[i] {
                            assert(iters@[i]@[t].key < lower);
                        }
                    }
                    assert(common(iters@, old_pos, x));
                    assert(common(iters@, pos@, x));
                    assert(appears(iters@[0]@, pos@[0] as int, x));
                    let t = choose|t: int| pos@[0] <= t < iters@[0]@.len() && #[trigger] iters@[0]@[t].key == x;
                    assert(sorted(iters@[0]@));
                    assert(iters@[0]@[pos@[0] as int].key <= iters@[0]@[t].key);
                }
            }
            lemma_gap(iters@, lower, v as int);
            lemma_sum_mult_concat(out@, rows@);
            assert forall|x: int| lower <= x < v implies expand_spec(
                join_base(*input),
                #[trigger] runs_at(iters@, x),
            ) == Seq::<RowView>::empty() by {
                if forall|i: int| 0 <= i < k ==> appears(#[trigger] iters@[i]@, 0, x) {
                    assert forall|i: int| 0 <= i < k implies appears(#[trigger] iters@[i]@, old_pos[i] as int, x) by {
                        assert(appears(iters@[i]@, 0, x));
                        let t = choose|t: int| 0 <= t < iters@[i]@.len() && #[trigger] iters@[i]@[t].key == x;
                        if t < old_pos[i] {
                            assert(iters@[i]@[t].key < lower);
                        }
                    }
                    assert(common(iters@, old_pos, x));
                    assert(common(iters@, pos@, x));
                    assert(appears(iters@[0]@, pos@[0] as int, x));
                    let t = choose|t: int| pos@[0] <= t < iters@[0]@.len() && #[trigger] iters@[0]@[t].key == x;
                    assert(sorted(iters@[0]@));
                    assert(iters@[0]@[pos@[0] as int].key <= iters@[0]@[t].key);
                } else {
                    let j = choose|j: int| 0 <= j < k && !appears(#[trigger] iters@[j]@, 0, x);
                    lemma_missing_key(join_base(*input), iters@, x, j);
                }
            }
            lemma_rows_gap(join_base(*input), iters@, lower, v as int);

            lemma_views_concat(out@, rows@);
        }
        let ghost out_before = out@;
        let ghost rows_before = rows@;
        out.append(&mut rows);
        proof {
            let old_lower = lower;
            lower = v as int + 1;
            assert forall|i: int, t: int|
                0 <= i < k && 0 <= t < ends@[i] implies #[trigger] iters@[i]@[t].key < lower by {
                assert(sorted(iters@[i]@));
                assert(run_of(iters@[i]@, pos@[i] as int, ends@[i] as int, v as int));
                assert(iters@[i]@[ends@[i] - 1].key == v);
                assert(iters@[i]@[t].key <= iters@[i]@[ends@[i] - 1].key);
            }
            assert forall|i: int| 0 <= i < k && ends@[i] < iters@[i]@.len() implies iters@[i]@[#[trigger] ends@[i] as int].key >= lower by {
                assert(run_of(iters@[i]@, pos@[i] as int, ends@[i] as int, v as int));
            }
            assert forall|i: int| 0 <= i < k implies #[trigger] ends@[i] <= iters@[i]@.len() by {
                assert(run_of(iters@[i]@, pos@[i] as int, ends@[i] as int, v as int));
            }
            assert(run_of(iters@[0]@, pos@[0] as int, ends@[0] as int, v as int));
            lemma_remaining_decreases(iters@, old_pos, ends@, k as int, 0);
            if k == 1 {
                assert(pos@ == old_pos);
                assert forall|i: int| 0 <= i < out@.len() implies (#[trigger] out@[i]).multiplicity == iters@[0]@[i].count by {
                    if i >= out_before.len() {
                        assert(out@[i] == rows_before[i - out_before.len()]);
                    } else {
                        assert(out@[i] == out_before[i]);
                    }
                }
            }
        }
        pos = ends;
    }
}

/// The rows that the input rows `0..n` yield together, counted with multiplicity.
pub open spec fn total_join_size(streams: Seq<Vec<Vec<SortedTuple>>>, n: int) -> nat
    decreases n,
{
    if n <= 0 {
        0
    } else {
        total_join_size(streams, n - 1) + join_size(streams[n - 1]@)
    }
}

/// `row` keeping only the `selected` positions, in a row of `width` values.
pub open spec fn projected(values: Seq<Option<u64>>, selected: Seq<usize>, width: nat) -> Seq<Option<u64>> {
    Seq::new(
        width,
        |p: int|
            if selected.contains(p as usize) && p < values.len() {
                values[p]
            } else {
                None
            },
    )
}

pub(crate) fn project_row(row: &Row, selected: &Vec<usize>, width: usize) -> (r: Row)
    ensures
        r.values@ == projected(row.values@, selected@, width as nat),
        r.multiplicity == row.multiplicity,
        r.provenance == row.provenance,
{
    let mut values: Vec<Option<u64>> = Vec::new();
    let mut p: usize = 0;
    while p < width
        invariant
            p <= width,
            values@ == projected(row.values@, selected@, width as nat).take(p as int),
        decreases width - p,
    {
        let mut keep = false;
        let mut k: usize = 0;
        while k < selected.len()
            invariant
                k <= selected@.len(),
                keep == exists|m: int| 0 <= m < k && selected@[m] == p,
            decreases selected@.len() - k,
        {
            if selected[k] == p {
                keep = true;
            }
            k = k + 1;
        }
        let v = if keep && p < row.values.len() {
            row.values[p]
        } else {
            None
        };
        values.push(v);
        proof {
            assert(values@ =~= projected(row.values@, selected@, width as nat).take(p + 1));
        }
        p = p + 1;
    }
    proof {
        assert(values@ =~= projected(row.values@, selected@, width as nat));
    }
    Row { values, multiplicity: row.multiplicity, provenance: row.provenance }
}

/// A row view keeping only the `selected` positions, in a row of `width` values.
pub open spec fn project_view(r: RowView, selected: Seq<usize>, width: nat) -> RowView {
    (projected(r.0, selected, width), r.1, r.2)
}

/// `vals` extended with empty positions up to `width`.
pub open spec fn pad(vals: Seq<Option<u64>>, width: nat) -> Seq<Option<u64>> {
    if vals.len() >= width {
        vals
    } else {
        vals + Seq::new((width - vals.len()) as nat, |i: int| None::<u64>)
    }
}

/// The view an input row starts its join from once widened to `width` positions.
pub open spec fn padded_base(input: Row, width: nat) -> RowView {
    (pad(input.values@, width), 1, input.provenance)
}

/// `input` with empty positions added up to `width`, so that what the tuples write at any
/// output position is kept.
fn pad_row(input: &Row, width: usize) -> (r: Row)
    ensures
        join_base(r) == padded_base(*input, width as nat),
{
    let mut values = copy_values(&input.values);
    let ghost original = values@;
    let n = values.len();
    if n >= width {
        return Row { values, multiplicity: 1, provenance: input.provenance };
    }
    let mut i: usize = n;
    while i < width
        invariant
            original == input.values@,
            n == original.len(),
            n <= i <= width,
            values@ =~= original + Seq::new((i - n) as nat, |k: int| None::<u64>),
        decreases width - i,
    {
        values.push(None);
        proof {
            assert(values@ =~= original + Seq::new((i + 1 - n) as nat, |k: int| None::<u64>));
        }
        i = i + 1;
    }
    proof {
        assert(values@ =~= pad(original, width as nat));
    }
    Row { values, multiplicity: 1, provenance: input.provenance }
}

/// The joins of input rows `0..n` all have multiplicities that fit in 64 bits.
pub open spec fn inputs_fit(inputs: Seq<Row>, streams: Seq<Vec<Vec<SortedTuple>>>, n: int, width: nat) -> bool {
    forall|k: int|
        0 <= k < n ==> multiplicities_fit(#[trigger] join_rows(padded_base(inputs[k], width), streams[k]@))
}

/// What preparing input rows `0..n` queues: each input row's join, projected, input after input.
pub open spec fn prepared(
    inputs: Seq<Row>,
    streams: Seq<Vec<Vec<SortedTuple>>>,
    selected: Seq<usize>,
    width: nat,
    n: int,
) -> Seq<RowView>
    decreases n,
{
    if n <= 0 {
        Seq::empty()
    } else {
        prepared(inputs, streams, selected, width, n - 1) + join_rows(
            padded_base(inputs[n - 1], width),
            streams[n - 1]@,
        ).map_values(|r: RowView| project_view(r, selected, width))
    }
}

/// Runs an intersection step over batches of input rows and hands its output out in batches.
pub struct IntersectionExecutor {
    pub output_width: usize,
    pub outputs_selected: Vec<usize>,
    pub batch_size: usize,
    /// Rows prepared so far; those from `next` on are still to be handed out.
    pub pending: Vec<Row>,
    pub next: usize,
}

impl IntersectionExecutor {
    /// The rows prepared and not yet handed out.
    pub open spec fn queued(&self) -> Seq<Row> {
        self.pending@.skip(self.next as int)
    }

    pub open spec fn wf(&self) -> bool {
        &&& self.next <= self.pending@.len()
        &&& forall|i: int|
            self.next <= i < self.pending@.len() ==> (#[trigger] self.pending@[i]).values@.len()
                == self.output_width
    }

    pub fn new(output_width: usize, outputs_selected: Vec<usize>, batch_size: usize) -> (r:
        IntersectionExecutor)
        ensures
            r.wf(),
            r.queued().len() == 0,
            r.output_width == output_width,
            r.outputs_selected@ == outputs_selected@,
            r.batch_size == batch_size,
    {
        let r = IntersectionExecutor { output_width, outputs_selected, batch_size, pending: Vec::new(), next: 0 };
        proof {
            assert(r.queued() =~= Seq::<Row>::empty());
        }
        r
    }

    /// Drops every row not yet handed out.
    pub fn reset(&mut self)
        ensures
            final(self).wf(),
            final(self).queued().len() == 0,
            final(self).output_width == old(self).output_width,
            final(self).outputs_selected@ == old(self).outputs_selected@,
            final(self).batch_size == old(self).batch_size,
    {
        self.pending = Vec::new();
        self.next = 0;
        proof {
            assert(self.queued() =~= Seq::<Row>::empty());
        }
    }

    /// Joins each input row with its streams, `streams[i]` holding the sorted tuples that each
    /// instruction yields for `inputs[i]`, and queues the resulting rows, projected onto the
    /// selected outputs, after those already queued. The queued multiplicities grow by the join
    /// sizes of all input rows together.
    pub fn prepare(&mut self, inputs: &Vec<Row>, streams: &Vec<Vec<Vec<SortedTuple>>>) -> (r: Result<
        (),
        ReadExecutionError,
    >)
        requires
            old(self).wf(),
            streams@.len() == inputs@.len(),
            forall|i: int|
                0 <= i < streams@.len() ==> (#[trigger] streams@[i])@.len() >= 1
                    && well_formed_streams(streams@[i]@),
        ensures
            final(self).wf(),
            final(self).output_width == old(self).output_width,
            final(self).outputs_selected@ == old(self).outputs_selected@,
            final(self).batch_size == old(self).batch_size,
            prepare_outcome(*old(self), *final(self), inputs@, streams@, r is Ok),
            r is Ok <==> inputs_fit(inputs@, streams@, inputs@.len() as int, old(self).output_width as nat),
            r is Ok ==> views(final(self).queued()) == views(old(self).queued()) + prepared(
                inputs@,
                streams@,
                old(self).outputs_selected@,
                old(self).output_width as nat,
                inputs@.len() as int,
            ),
            r is Err ==> exists|k: int|
                0 <= k < inputs@.len() && inputs_fit(inputs@, streams@, k, old(self).output_width as nat) && !multiplicities_fit(
                    #[trigger] join_rows(padded_base(inputs@[k], old(self).output_width as nat), streams@[k]@),
                ) && views(final(self).queued()) == views(old(self).queued()) + prepared(
                    inputs@,
                    streams@,
                    old(self).outputs_selected@,
                    old(self).output_width as nat,
                    k,
                ),
            r is Ok ==> sum_mult(final(self).queued()) == sum_mult(old(self).queued())
                + total_join_size(streams@, streams@.len() as int),
            r is Ok ==> forall|i: int|
                0 <= i < final(self).queued().len() ==> (#[trigger] final(self).queued()[i]).values@.len()
                    == final(self).output_width,
    {
        let ghost q0 = self.queued();
        // keep only what is still queued
        let mut all: Vec<Row> = Vec::new();
        std::mem::swap(&mut all, &mut self.pending);
        let mut kept = all.split_off(self.next);
        self.next = 0;
        proof {
            assert(kept@ =~= q0);
            assert(views(kept@) =~= views(q0) + Seq::<RowView>::empty());
        }
        let mut i: usize = 0;
        while i < inputs.len()
            invariant
                streams@.len() == inputs@.len(),
                forall|x: int|
                    0 <= x < streams@.len() ==> (#[trigger] streams@[x])@.len() >= 1
                        && well_formed_streams(streams@[x]@),
                i <= inputs@.len(),
                self.next == 0,
                self.output_width == old(self).output_width,
                self.outputs_selected@ == old(self).outputs_selected@,
                self.batch_size == old(self).batch_size,
                sum_mult(kept@) == sum_mult(q0) + total_join_size(streams@, i as int),
                inputs_fit(inputs@, streams@, i as int, old(self).output_width as nat),
                q0 == old(self).queued(),
                views(kept@) == views(q0) + prepared(
                    inputs@,
                    streams@,
                    old(self).outputs_selected@,
                    old(self).output_width as nat,
                    i as int,
                ),
                forall|x: int| 0 <= x < kept@.len() ==> (#[trigger] kept@[x]).values@.len() == self.output_width,
            decreases inputs@.len() - i,
        {
            assert(streams@[i as int]@.len() >= 1);
            let input = pad_row(&inputs[i], self.output_width);
            let rows = match intersect_row(&input, &streams[i]) {
                Ok(rows) => rows,
                Err(e) => {
                    self.pending = kept;
                    proof {
                        assert(self.queued() =~= kept@);
                        assert(!multiplicities_fit(join_rows(padded_base(inputs@[i as int], old(self).output_width as nat), streams@[i as int]@)));
                    }
                    return Err(e);
                },
            };
            let ghost base = kept@;
            let ghost joined = views(rows@).map_values(
                |r: RowView| project_view(r, old(self).outputs_selected@, old(self).output_width as nat),
            );
            let mut j: usize = 0;
            proof {
                assert(rows@.take(0) =~= Seq::<Row>::empty());
                assert(views(kept@) =~= views(base) + joined.take(0));
            }
            while j < rows.len()
                invariant
                    j <= rows@.len(),
                    sum_mult(kept@) == sum_mult(base) + sum_mult(rows@.take(j as int)),
                    joined == views(rows@).map_values(
                        |r: RowView| project_view(r, old(self).outputs_selected@, old(self).output_width as nat),
                    ),
                    views(kept@) == views(base) + joined.take(j as int),
                    self.outputs_selected@ == old(self).outputs_selected@,
                    self.output_width == old(self).output_width,
                    forall|x: int| 0 <= x < kept@.len() ==> (#[trigger] kept@[x]).values@.len() == self.output_width,
                decreases rows@.len() - j,
            {
                let one = project_row(&rows[j], &self.outputs_selected, self.output_width);
                let ghost prev = kept@;
                kept.push(one);
                proof {
                    lemma_sum_mult_push(prev, one);
                    lemma_sum_mult_take(rows@, j as int);
                    lemma_views_push(prev, one);
                    assert(joined.take(j + 1) =~= joined.take(j as int).push(joined[j as int]));
                    assert(row_view(one) == joined[j as int]);
                    assert(views(kept@) =~= views(base) + joined.take(j + 1));
                }
                j = j + 1;
            }
            proof {
                assert(rows@.take(j as int) =~= rows@);
                assert(joined.take(j as int) =~= joined);
                assert(views(kept@) =~= views(q0) + prepared(
                    inputs@,
                    streams@,
                    old(self).outputs_selected@,
                    old(self).output_width as nat,
                    i + 1,
                ));
            }
            i = i + 1;
        }
        self.pending = kept;
        proof {
            assert(self.queued() =~= self.pending@);
        }
        Ok(())
    }

    /// Hands out the next rows, at most `batch_size` and at least one, in the order they were
    /// queued; `None` once none are queued.
    pub fn batch_continue(&mut self) -> (r: Option<Vec<Row>>)
        requires
            old(self).wf(),
        ensures
            final(self).wf(),
            final(self).output_width == old(self).output_width,
            final(self).outputs_selected@ == old(self).outputs_selected@,
            final(self).batch_size == old(self).batch_size,
            old(self).queued().len() == 0 <==> r is None,
            r matches Some(batch) ==> {
                &&& batch@.len() == batch_length(old(self).batch_size, old(self).queued().len())
                &&& final(self).queued() == old(self).queued().skip(batch@.len() as int)
                &&& forall|i: int|
                    0 <= i < batch@.len() ==> same_row(#[trigger] batch@[i], old(self).queued()[i])
            },
    {
        if self.next >= self.pending.len() {
            proof {
                assert(self.queued().len() == 0);
            }
            return None;
        }
        let limit = if self.batch_size == 0 {
            1
        } else {
            self.batch_size
        };
        let ghost q0 = self.queued();
        let ghost start = self.next;
        let mut batch: Vec<Row> = Vec::new();
        while batch.len() < limit && self.next < self.pending.len()
            invariant
                old(self).wf(),
                self.pending@ == old(self).pending@,
                start == old(self).next,
                start <= self.next <= self.pending@.len(),
                q0 == self.pending@.skip(start as int),
                batch@.len() == self.next - start,
                batch@.len() <= limit,
                self.output_width == old(self).output_width,
                self.outputs_selected@ == old(self).outputs_selected@,
                self.batch_size == old(self).batch_size,
                forall|i: int| 0 <= i < batch@.len() ==> same_row(#[trigger] batch@[i], q0[i]),
            decreases self.pending@.len() - self.next,
        {
            let row = copy_row(&self.pending[self.next]);
            batch.push(row);
            self.next = self.next + 1;
        }
        proof {
            assert(self.queued() =~= q0.skip(batch@.len() as int));
        }
        Some(batch)
    }
}

impl IntersectionExecutor {
    /// `batch_continue`, unless `interrupted`: an interrupt is answered with `None` and leaves
    /// the queued rows in place.
    pub fn batch_continue_interruptible(&mut self, interrupted: bool) -> (r: Option<Vec<Row>>)
        requires
            old(self).wf(),
        ensures
            final(self).wf(),
            final(self).output_width == old(self).output_width,
            final(self).outputs_selected@ == old(self).outputs_selected@,
            final(self).batch_size == old(self).batch_size,
            interrupted ==> r is None && final(self).queued() == old(self).queued(),
            !interrupted ==> (old(self).queued().len() == 0 <==> r is None),
            !interrupted ==> (r matches Some(batch) ==> {
                &&& batch@.len() == batch_length(old(self).batch_size, old(self).queued().len())
                &&& final(self).queued() == old(self).queued().skip(batch@.len() as int)
                &&& forall|i: int|
                    0 <= i < batch@.len() ==> same_row(#[trigger] batch@[i], old(self).queued()[i])
            }),
    {
        if interrupted {
            return None;
        }
        self.batch_continue()
    }
}

/// How many rows a batch takes when `queued` rows wait: `batch_size` of them, at least one, at
/// most all.
pub open spec fn batch_length(batch_size: usize, queued: nat) -> nat {
    let limit: nat = if batch_size == 0 { 1 } else { batch_size as nat };
    if queued < limit { queued } else { limit }
}

/// Two rows hold the same values, multiplicity and provenance.
pub open spec fn same_row(a: Row, b: Row) -> bool {
    a.values@ == b.values@ && a.multiplicity == b.multiplicity && a.provenance == b.provenance
}

pub(crate) fn copy_row(row: &Row) -> (r: Row)
    ensures
        same_row(r, *row),
{
    Row { values: copy_values(&row.values), multiplicity: row.multiplicity, provenance: row.provenance }
}

/// What `prepare` promises of a call on `inputs` and `streams` that turned `before` into `after`
/// with outcome `ok`: it succeeds exactly when every join fits; on success every join is queued,
/// on failure those before the first join that does not fit.
pub open spec fn prepare_outcome(
    before: IntersectionExecutor,
    after: IntersectionExecutor,
    inputs: Seq<Row>,
    streams: Seq<Vec<Vec<SortedTuple>>>,
    ok: bool,
) -> bool {
    let queued = |k: int|
        views(before.queued()) + prepared(
            inputs,
            streams,
            before.outputs_selected@,
            before.output_width as nat,
            k,
        );
    &&& ok <==> inputs_fit(inputs, streams, inputs.len() as int, before.output_width as nat)
    &&& ok ==> views(after.queued()) == queued(inputs.len() as int)
    &&& !ok ==> exists|k: int|
        0 <= k < inputs.len() && inputs_fit(inputs, streams, k, before.output_width as nat) && !multiplicities_fit(
            #[trigger] join_rows(padded_base(inputs[k], before.output_width as nat), streams[k]@),
        ) && views(after.queued()) == queued(k)
}

/// Reset, then prepare with the same input: the same outcome, and the same rows queued in the
/// same order. `reset_a` and `reset_b` are executors as `reset` leaves them (nothing queued) with
/// the same selection and width; `prepared_a` and `prepared_b` are what `prepare` made of them.
/// Since `batch_continue` hands out a fixed number of the queued rows in order, the batches that
/// follow are the same too.
pub proof fn lemma_reset_then_prepare_repeats(
    reset_a: IntersectionExecutor,
    prepared_a: IntersectionExecutor,
    ok_a: bool,
    reset_b: IntersectionExecutor,
    prepared_b: IntersectionExecutor,
    ok_b: bool,
    inputs: Seq<Row>,
    streams: Seq<Vec<Vec<SortedTuple>>>,
)
    requires
        reset_a.queued().len() == 0,
        reset_b.queued().len() == 0,
        reset_a.outputs_selected@ == reset_b.outputs_selected@,
        reset_a.output_width == reset_b.output_width,
        prepare_outcome(reset_a, prepared_a, inputs, streams, ok_a),
        prepare_outcome(reset_b, prepared_b, inputs, streams, ok_b),
    ensures
        ok_a == ok_b,
        views(prepared_a.queued()) == views(prepared_b.queued()),
{
    assert(views(reset_a.queued()) =~= Seq::<RowView>::empty());
    assert(views(reset_b.queued()) =~= Seq::<RowView>::empty());
    if !ok_a {
        let ka = choose|k: int|
            0 <= k < inputs.len() && inputs_fit(inputs, streams, k, reset_a.output_width as nat) && !multiplicities_fit(
                #[trigger] join_rows(padded_base(inputs[k], reset_a.output_width as nat), streams[k]@),
            ) && views(prepared_a.queued()) == views(reset_a.queued()) + prepared(
                inputs,
                streams,
                reset_a.outputs_selected@,
                reset_a.output_width as nat,
                k,
            );
        let kb = choose|k: int|
            0 <= k < inputs.len() && inputs_fit(inputs, streams, k, reset_b.output_width as nat) && !multiplicities_fit(
                #[trigger] join_rows(padded_base(inputs[k], reset_b.output_width as nat), streams[k]@),
            ) && views(prepared_b.queued()) == views(reset_b.queued()) + prepared(
                inputs,
                streams,
                reset_b.outputs_selected@,
                reset_b.output_width as nat,
                k,
            );
        // the first join that does not fit is the same for both
        if ka < kb {
            assert(multiplicities_fit(join_rows(padded_base(inputs[ka], reset_a.output_width as nat), streams[ka]@)));
        }
        if kb < ka {
            assert(multiplicities_fit(join_rows(padded_base(inputs[kb], reset_a.output_width as nat), streams[kb]@)));
        }
    }
}

/// After any key, cartesian or not, a key at which every stream holds exactly one tuple adds
/// exactly one row to the join: the rows below key `x + 1` are those below `x` and one more.
pub proof fn lemma_single_tuples_give_one_row(base: RowView, iters: Seq<Vec<SortedTuple>>, x: int)
    requires
        0 <= x,
        forall|j: int| 0 <= j < iters.len() ==> (#[trigger] runs_at(iters, x)[j]).len() == 1,
    ensures
        rows_below(base, iters, x + 1).len() == rows_below(base, iters, x).len() + 1,
        rows_below(base, iters, x + 1).take(rows_below(base, iters, x).len() as int) == rows_below(
            base,
            iters,
            x,
        ),
{
    lemma_expand_single(base, runs_at(iters, x));
    let below = rows_below(base, iters, x);
    assert((below + expand_spec(base, runs_at(iters, x))).take(below.len() as int) =~= below);
}

proof fn lemma_expand_single(base: RowView, runs: Seq<Seq<SortedTuple>>)
    requires
        forall|j: int| 0 <= j < runs.len() ==> (#[trigger] runs[j]).len() == 1,
    ensures
        expand_spec(base, runs).len() == 1,
    decreases runs.len(),
{
    if runs.len() > 0 {
        lemma_expand_single(base, runs.drop_last());
        let prev = expand_spec(base, runs.drop_last());
        assert(prev.drop_last().len() == 0);
        assert(level(prev.drop_last(), runs.last()) =~= Seq::<RowView>::empty());
        assert(runs.last().len() == 1);
    }
}

} // verus!
