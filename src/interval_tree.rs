use vstd::laws_eq::obeys_concrete_eq;
use vstd::prelude::*;

verus! {

/// One run: every cell from `cell_i_start` up to the next run's start (or the
/// capacity, for the last run) holds `value`.
#[derive(Clone, Copy, Debug, PartialEq, Eq)]
pub struct IntervalNode<T> {
    pub cell_i_start: usize,
    pub value: T,
}

/// The first cell past run `k`.
pub open spec fn run_end<T>(runs: Seq<IntervalNode<T>>, capacity: int, k: int) -> int {
    if k + 1 < runs.len() {
        runs[k + 1].cell_i_start as int
    } else {
        capacity
    }
}

/// Run `k` covers cell `i`.
pub open spec fn run_contains<T>(runs: Seq<IntervalNode<T>>, capacity: int, k: int, i: int) -> bool {
    &&& 0 <= k < runs.len()
    &&& runs[k].cell_i_start <= i < run_end(runs, capacity, k)
}

/// A run list that partitions `[0, capacity)`: it starts at cell 0, its
/// starts strictly increase, and its last start lies below the capacity.
pub open spec fn runs_sorted<T>(runs: Seq<IntervalNode<T>>, capacity: int) -> bool {
    &&& runs.len() > 0
    &&& runs[0].cell_i_start == 0
    &&& forall|a: int, b: int|
        0 <= a < b < runs.len() ==> #[trigger] runs[a].cell_i_start < #[trigger] runs[b].cell_i_start
    &&& runs.last().cell_i_start < capacity
}

/// No two adjacent runs hold the same value.
pub open spec fn runs_maximal<T>(runs: Seq<IntervalNode<T>>) -> bool {
    forall|k: int| 0 <= k < runs.len() - 1 ==> #[trigger] runs[k].value != runs[k + 1].value
}

/// A run list that partitions `[0, capacity)` into maximal runs.
pub open spec fn runs_valid<T>(runs: Seq<IntervalNode<T>>, capacity: int) -> bool {
    runs_sorted(runs, capacity) && runs_maximal(runs)
}

/// The run that covers cell `i`.
pub open spec fn run_index<T>(runs: Seq<IntervalNode<T>>, capacity: int, i: int) -> int {
    choose|k: int| run_contains(runs, capacity, k, i)
}

/// The value that the run list gives cell `i`.
pub open spec fn cell_value<T>(runs: Seq<IntervalNode<T>>, capacity: int, i: int) -> T {
    runs[run_index(runs, capacity, i)].value
}

/// The cells that a run list stands for, one value per index.
pub open spec fn cells<T>(runs: Seq<IntervalNode<T>>, capacity: int) -> Seq<T> {
    Seq::new(capacity as nat, |i: int| cell_value(runs, capacity, i))
}

/// In a valid run list the run that covers a cell is unique.
pub proof fn lemma_run_unique<T>(runs: Seq<IntervalNode<T>>, capacity: int, k: int, i: int)
    requires
        runs_sorted(runs, capacity),
        run_contains(runs, capacity, k, i),
    ensures
        run_index(runs, capacity, i) == k,
        cell_value(runs, capacity, i) == runs[k].value,
{
    let j = run_index(runs, capacity, i);
    assert(run_contains(runs, capacity, j, i));
    if j < k {
        assert(runs[j + 1].cell_i_start <= runs[k].cell_i_start) by {
            if j + 1 < k {
                assert(runs[j + 1].cell_i_start < runs[k].cell_i_start);
            }
        }
    } else if k < j {
        assert(runs[k + 1].cell_i_start <= runs[j].cell_i_start) by {
            if k + 1 < j {
                assert(runs[k + 1].cell_i_start < runs[j].cell_i_start);
            }
        }
    }
}

/// In a valid run list every cell below the capacity lies in some run.
pub proof fn lemma_run_exists<T>(runs: Seq<IntervalNode<T>>, capacity: int, k: int, i: int)
    requires
        runs_sorted(runs, capacity),
        0 <= k < runs.len(),
        runs[k].cell_i_start <= i < capacity,
    ensures
        run_contains(runs, capacity, run_index(runs, capacity, i), i),
    decreases runs.len() - k,
{
    if k + 1 < runs.len() && runs[k + 1].cell_i_start <= i {
        lemma_run_exists(runs, capacity, k + 1, i);
    } else {
        assert(run_contains(runs, capacity, k, i));
    }
}

/// The run of a cell, with the facts that pin its value.
proof fn lemma_cell<T>(runs: Seq<IntervalNode<T>>, capacity: int, i: int) -> (k: int)
    requires
        runs_sorted(runs, capacity),
        0 <= i < capacity,
    ensures
        k == run_index(runs, capacity, i),
        run_contains(runs, capacity, k, i),
        cell_value(runs, capacity, i) == runs[k].value,
{
    lemma_run_exists(runs, capacity, 0, i);
    let k = run_index(runs, capacity, i);
    lemma_run_unique(runs, capacity, k, i);
    k
}

pub open spec fn node<T>(start: int, value: T) -> IntervalNode<T> {
    IntervalNode { cell_i_start: start as usize, value }
}

/// Cutting run `k` in two at cell `i` keeps the cells.
proof fn lemma_split<T>(runs: Seq<IntervalNode<T>>, capacity: int, k: int, i: int)
    requires
        runs_sorted(runs, capacity),
        0 <= k < runs.len(),
        runs[k].cell_i_start < i < run_end(runs, capacity, k),
        capacity <= usize::MAX,
    ensures
        runs_sorted(runs.insert(k + 1, node(i, runs[k].value)), capacity),
        cells(runs.insert(k + 1, node(i, runs[k].value)), capacity) == cells(runs, capacity),
{
    let n = runs.insert(k + 1, node(i, runs[k].value));
    assert forall|a: int, b: int|
        0 <= a < b < n.len() implies #[trigger] n[a].cell_i_start < #[trigger] n[b].cell_i_start by {
        if a <= k && b > k + 1 && b - 1 > k + 1 {
            assert(runs[k + 1].cell_i_start < runs[b - 1].cell_i_start);
        }
        if a <= k && a < k {
            assert(runs[a].cell_i_start < runs[k].cell_i_start);
        }
        if a > k + 1 {
            assert(runs[a - 1].cell_i_start < runs[b - 1].cell_i_start);
        }
        if a < k && b <= k {
            assert(runs[a].cell_i_start < runs[b].cell_i_start);
        }
    }
    if k + 1 < runs.len() {
        let l = runs.len() - 1;
        if k + 1 < l {
            assert(runs[k + 1].cell_i_start < runs[l].cell_i_start);
        }
    }
    assert(runs_sorted(n, capacity));
    assert forall|j: int| 0 <= j < capacity implies cell_value(n, capacity, j) == cell_value(
        runs,
        capacity,
        j,
    ) by {
        let kk = lemma_cell(runs, capacity, j);
        let nk = if kk < k {
            kk
        } else if kk == k {
            if j < i {
                k
            } else {
                k + 1
            }
        } else {
            kk + 1
        };
        assert(run_contains(n, capacity, nk, j));
        lemma_run_unique(n, capacity, nk, j);
    }
    assert(cells(n, capacity) =~= cells(runs, capacity));
}

/// Giving a one-cell run a new value changes that cell alone.
proof fn lemma_assign<T>(runs: Seq<IntervalNode<T>>, capacity: int, k: int, v: T)
    requires
        runs_sorted(runs, capacity),
        0 <= k < runs.len(),
        run_end(runs, capacity, k) == runs[k].cell_i_start + 1,
    ensures
        runs_sorted(runs.update(k, node(runs[k].cell_i_start as int, v)), capacity),
        cells(runs.update(k, node(runs[k].cell_i_start as int, v)), capacity) == cells(
            runs,
            capacity,
        ).update(runs[k].cell_i_start as int, v),
{
    let s = runs[k].cell_i_start as int;
    let n = runs.update(k, node(s, v));
    assert(runs_sorted(n, capacity));
    assert forall|j: int| 0 <= j < capacity implies cell_value(n, capacity, j) == cells(
        runs,
        capacity,
    ).update(s, v)[j] by {
        let kk = lemma_cell(runs, capacity, j);
        assert(run_contains(n, capacity, kk, j));
        lemma_run_unique(n, capacity, kk, j);
    }
    assert(cells(n, capacity) =~= cells(runs, capacity).update(s, v));
}

/// Dropping run `k + 1` when it repeats run `k`'s value keeps the cells.
proof fn lemma_merge<T>(runs: Seq<IntervalNode<T>>, capacity: int, k: int)
    requires
        runs_sorted(runs, capacity),
        0 <= k,
        k + 1 < runs.len(),
        runs[k].value == runs[k + 1].value,
    ensures
        runs_sorted(runs.remove(k + 1), capacity),
        cells(runs.remove(k + 1), capacity) == cells(runs, capacity),
{
    let n = runs.remove(k + 1);
    assert forall|a: int, b: int|
        0 <= a < b < n.len() implies #[trigger] n[a].cell_i_start < #[trigger] n[b].cell_i_start by {
        let oa = if a <= k { a } else { a + 1 };
        let ob = if b <= k { b } else { b + 1 };
        assert(runs[oa].cell_i_start < runs[ob].cell_i_start);
    }
    if k + 2 < runs.len() {
        assert(runs[k + 1].cell_i_start < runs[k + 2].cell_i_start);
    }
    assert(runs_sorted(n, capacity));
    assert forall|j: int| 0 <= j < capacity implies cell_value(n, capacity, j) == cell_value(
        runs,
        capacity,
        j,
    ) by {
        let kk = lemma_cell(runs, capacity, j);
        let nk = if kk <= k {
            kk
        } else if kk == k + 1 {
            k
        } else {
            kk - 1
        };
        assert(run_contains(n, capacity, nk, j));
        lemma_run_unique(n, capacity, nk, j);
    }
    assert(cells(n, capacity) =~= cells(runs, capacity));
}

/// The run list after cell `i` is set to `v`. A cell that already holds `v`
/// changes nothing. Otherwise the cell's run `k` gives up cell `i`: the parts
/// of it on either side stay, and the cell joins a neighbouring run that holds
/// `v` and touches it, or becomes a run of its own.
pub open spec fn runs_after_set<T>(
    runs: Seq<IntervalNode<T>>,
    capacity: int,
    i: int,
    v: T,
) -> Seq<IntervalNode<T>> {
    let k = run_index(runs, capacity, i);
    let s = runs[k].cell_i_start as int;
    let e = run_end(runs, capacity, k);
    let w = runs[k].value;
    let joins_prev = s == i && k > 0 && runs[k - 1].value == v;
    let joins_next = i + 1 == e && k + 1 < runs.len() && runs[k + 1].value == v;
    if w == v {
        runs
    } else if s == i && e == i + 1 {
        if joins_prev && joins_next {
            runs.remove(k).remove(k)
        } else if joins_prev {
            runs.remove(k)
        } else if joins_next {
            runs.update(k, node(i, v)).remove(k + 1)
        } else {
            runs.update(k, node(i, v))
        }
    } else if s == i {
        if joins_prev {
            runs.update(k, node(i + 1, w))
        } else {
            runs.update(k, node(i + 1, w)).insert(k, node(i, v))
        }
    } else if i + 1 == e {
        if joins_next {
            runs.update(k + 1, node(i, v))
        } else {
            runs.insert(k + 1, node(i, v))
        }
    } else {
        runs.insert(k + 1, node(i + 1, w)).insert(k + 1, node(i, v))
    }
}

/// What a proof of a write must show of the new run list.
pub open spec fn write_ok<T>(
    runs: Seq<IntervalNode<T>>,
    capacity: int,
    i: int,
    v: T,
    n: Seq<IntervalNode<T>>,
) -> bool {
    runs_valid(n, capacity) && cells(n, capacity) == cells(runs, capacity).update(i, v)
}

/// Writing into a run of one cell.
proof fn lemma_set_single<T>(runs: Seq<IntervalNode<T>>, capacity: int, i: int, v: T)
    requires
        runs_valid(runs, capacity),
        0 <= i < capacity <= usize::MAX,
        ({
            let k = run_index(runs, capacity, i);
            &&& run_contains(runs, capacity, k, i)
            &&& runs[k].value != v
            &&& runs[k].cell_i_start == i
            &&& run_end(runs, capacity, k) == i + 1
        }),
    ensures
        write_ok(runs, capacity, i, v, runs_after_set(runs, capacity, i, v)),
{
    let k = run_index(runs, capacity, i);
    let l1 = runs.update(k, node(i, v));
    let n = runs_after_set(runs, capacity, i, v);
    lemma_assign(runs, capacity, k, v);
    let joins_prev = k > 0 && runs[k - 1].value == v;
    let joins_next = k + 1 < runs.len() && runs[k + 1].value == v;
    if joins_prev && joins_next {
        lemma_merge(l1, capacity, k);
        lemma_merge(l1.remove(k + 1), capacity, k - 1);
        assert(l1.remove(k + 1).remove(k) =~= n);
    } else if joins_prev {
        lemma_merge(l1, capacity, k - 1);
        assert(l1.remove(k) =~= n);
    } else if joins_next {
        lemma_merge(l1, capacity, k);
    }
    assert forall|p: int| 0 <= p < n.len() - 1 implies #[trigger] n[p].value != n[p + 1].value by {
        if p + 2 < runs.len() {
            assert(runs[p + 1].value != runs[p + 2].value);
        }
        if p + 1 < runs.len() {
            assert(runs[p].value != runs[p + 1].value);
        }
    }
}

/// Writing into the first cell of a longer run.
proof fn lemma_set_first<T>(runs: Seq<IntervalNode<T>>, capacity: int, i: int, v: T)
    requires
        runs_valid(runs, capacity),
        0 <= i < capacity <= usize::MAX,
        ({
            let k = run_index(runs, capacity, i);
            &&& run_contains(runs, capacity, k, i)
            &&& runs[k].value != v
            &&& runs[k].cell_i_start == i
            &&& run_end(runs, capacity, k) > i + 1
        }),
    ensures
        write_ok(runs, capacity, i, v, runs_after_set(runs, capacity, i, v)),
{
    let k = run_index(runs, capacity, i);
    let w = runs[k].value;
    let n = runs_after_set(runs, capacity, i, v);
    lemma_split(runs, capacity, k, i + 1);
    let l1 = runs.insert(k + 1, node(i + 1, w));
    lemma_assign(l1, capacity, k, v);
    let l2 = l1.update(k, node(i, v));
    if k > 0 && runs[k - 1].value == v {
        lemma_merge(l2, capacity, k - 1);
        assert(l2.remove(k) =~= n);
    } else {
        assert(l2 =~= n);
    }
    assert forall|p: int| 0 <= p < n.len() - 1 implies #[trigger] n[p].value != n[p + 1].value by {
        if p + 1 < runs.len() {
            assert(runs[p].value != runs[p + 1].value);
        }
        if p >= 1 {
            assert(runs[p - 1].value != runs[p].value);
        }
    }
}

/// Writing into the last cell of a longer run.
proof fn lemma_set_last<T>(runs: Seq<IntervalNode<T>>, capacity: int, i: int, v: T)
    requires
        runs_valid(runs, capacity),
        0 <= i < capacity <= usize::MAX,
        ({
            let k = run_index(runs, capacity, i);
            &&& run_contains(runs, capacity, k, i)
            &&& runs[k].value != v
            &&& runs[k].cell_i_start < i
            &&& run_end(runs, capacity, k) == i + 1
        }),
    ensures
        write_ok(runs, capacity, i, v, runs_after_set(runs, capacity, i, v)),
{
    let k = run_index(runs, capacity, i);
    let w = runs[k].value;
    let n = runs_after_set(runs, capacity, i, v);
    lemma_split(runs, capacity, k, i);
    let l1 = runs.insert(k + 1, node(i, w));
    lemma_assign(l1, capacity, k + 1, v);
    let l2 = l1.update(k + 1, node(i, v));
    if k + 1 < runs.len() && runs[k + 1].value == v {
        lemma_merge(l2, capacity, k + 1);
        assert(l2.remove(k + 2) =~= n);
    } else {
        assert(l2 =~= n);
    }
    assert forall|p: int| 0 <= p < n.len() - 1 implies #[trigger] n[p].value != n[p + 1].value by {
        if p + 1 < runs.len() {
            assert(runs[p].value != runs[p + 1].value);
        }
        if p >= 1 {
            assert(runs[p - 1].value != runs[p].value);
        }
    }
}

/// Writing into a cell strictly inside a run.
proof fn lemma_set_inner<T>(runs: Seq<IntervalNode<T>>, capacity: int, i: int, v: T)
    requires
        runs_valid(runs, capacity),
        0 <= i < capacity <= usize::MAX,
        ({
            let k = run_index(runs, capacity, i);
            &&& run_contains(runs, capacity, k, i)
            &&& runs[k].value != v
            &&& runs[k].cell_i_start < i
            &&& run_end(runs, capacity, k) > i + 1
        }),
    ensures
        write_ok(runs, capacity, i, v, runs_after_set(runs, capacity, i, v)),
{
    let k = run_index(runs, capacity, i);
    let w = runs[k].value;
    let n = runs_after_set(runs, capacity, i, v);
    lemma_split(runs, capacity, k, i + 1);
    let l1 = runs.insert(k + 1, node(i + 1, w));
    lemma_split(l1, capacity, k, i);
    let l2 = l1.insert(k + 1, node(i, w));
    lemma_assign(l2, capacity, k + 1, v);
    assert(l2.update(k + 1, node(i, v)) =~= n);
    assert forall|p: int| 0 <= p < n.len() - 1 implies #[trigger] n[p].value != n[p + 1].value by {
        if p >= 2 {
            assert(runs[p - 2].value != runs[p - 1].value);
        }
        if p + 1 < runs.len() {
            assert(runs[p].value != runs[p + 1].value);
        }
    }
}

/// A write into a valid run list leaves a valid run list whose cells are the
/// old ones with cell `i` replaced by `v`.
pub proof fn lemma_set_correct<T>(runs: Seq<IntervalNode<T>>, capacity: int, i: int, v: T)
    requires
        runs_valid(runs, capacity),
        0 <= i < capacity <= usize::MAX,
    ensures
        runs_valid(runs_after_set(runs, capacity, i, v), capacity),
        cells(runs_after_set(runs, capacity, i, v), capacity) == cells(runs, capacity).update(i, v),
{
    let k = lemma_cell(runs, capacity, i);
    let s = runs[k].cell_i_start as int;
    let e = run_end(runs, capacity, k);
    if runs[k].value == v {
        assert(cells(runs, capacity) =~= cells(runs, capacity).update(i, v));
    } else if s == i && e == i + 1 {
        lemma_set_single(runs, capacity, i, v);
    } else if s == i {
        lemma_set_first(runs, capacity, i, v);
    } else if e == i + 1 {
        lemma_set_last(runs, capacity, i, v);
    } else {
        lemma_set_inner(runs, capacity, i, v);
    }
}

/// Writing into a cell the value it already holds leaves the run list as it
/// was.
pub proof fn lemma_set_same_value<T>(runs: Seq<IntervalNode<T>>, capacity: int, i: int)
    requires
        runs_valid(runs, capacity),
        0 <= i < capacity,
    ensures
        runs_after_set(runs, capacity, i, cells(runs, capacity)[i]) == runs,
{
    lemma_cell(runs, capacity, i);
}

/// Writing into the first or last cell of a run the value of the neighbouring
/// run on that side never adds a run; where the run is that one cell and its
/// other neighbour does not hold the value too, it removes exactly one.
pub proof fn lemma_set_joins_neighbour<T>(runs: Seq<IntervalNode<T>>, capacity: int, i: int, v: T)
    requires
        runs_valid(runs, capacity),
        0 <= i < capacity <= usize::MAX,
        ({
            let k = run_index(runs, capacity, i);
            ||| (i == runs[k].cell_i_start && k > 0 && runs[k - 1].value == v)
            ||| (i + 1 == run_end(runs, capacity, k) && k + 1 < runs.len() && runs[k
                + 1].value == v)
        }),
    ensures
        runs_after_set(runs, capacity, i, v).len() <= runs.len(),
        ({
            let k = run_index(runs, capacity, i);
            let one_cell = runs[k].cell_i_start == i && run_end(runs, capacity, k) == i + 1;
            let both = k > 0 && runs[k - 1].value == v && k + 1 < runs.len() && runs[k
                + 1].value == v;
            one_cell && !both ==> runs_after_set(runs, capacity, i, v).len() == runs.len() - 1
        }),
{
    let k = lemma_cell(runs, capacity, i);
    if k > 0 {
        assert(runs[k - 1].value != runs[k].value);
    }
    if k + 1 < runs.len() {
        assert(runs[k].value != runs[k + 1].value);
    }
}

/// Writing a new value into a cell strictly inside a run splits the run in
/// three: two more runs.
pub proof fn lemma_set_splits<T>(runs: Seq<IntervalNode<T>>, capacity: int, i: int, v: T)
    requires
        runs_valid(runs, capacity),
        0 <= i < capacity <= usize::MAX,
        cells(runs, capacity)[i] != v,
        runs[run_index(runs, capacity, i)].cell_i_start < i,
        i + 1 < run_end(runs, capacity, run_index(runs, capacity, i)),
    ensures
        runs_after_set(runs, capacity, i, v).len() == runs.len() + 2,
{
    lemma_cell(runs, capacity, i);
}

/// The cells after a series of writes, each `(index, value)`, made in order.
pub open spec fn cells_after_writes<T>(c: Seq<T>, writes: Seq<(int, T)>) -> Seq<T>
    decreases writes.len(),
{
    if writes.len() == 0 {
        c
    } else {
        cells_after_writes(c, writes.drop_last()).update(writes.last().0, writes.last().1)
    }
}

/// The run list after a series of writes made in order.
pub open spec fn runs_after_writes<T>(
    runs: Seq<IntervalNode<T>>,
    capacity: int,
    writes: Seq<(int, T)>,
) -> Seq<IntervalNode<T>>
    decreases writes.len(),
{
    if writes.len() == 0 {
        runs
    } else {
        runs_after_set(
            runs_after_writes(runs, capacity, writes.drop_last()),
            capacity,
            writes.last().0,
            writes.last().1,
        )
    }
}

/// After any series of in-range writes the run list is still valid, and every
/// cell holds the value last written to it, or its first value if none was.
pub proof fn lemma_writes<T>(
    runs: Seq<IntervalNode<T>>,
    capacity: int,
    writes: Seq<(int, T)>,
    j: int,
)
    requires
        runs_valid(runs, capacity),
        capacity <= usize::MAX,
        forall|t: int| 0 <= t < writes.len() ==> 0 <= #[trigger] writes[t].0 < capacity,
        0 <= j < capacity,
    ensures
        runs_valid(runs_after_writes(runs, capacity, writes), capacity),
        cells(runs_after_writes(runs, capacity, writes), capacity) == cells_after_writes(
            cells(runs, capacity),
            writes,
        ),
        (forall|t: int| 0 <= t < writes.len() ==> #[trigger] writes[t].0 != j) ==> cells(
            runs_after_writes(runs, capacity, writes),
            capacity,
        )[j] == cells(runs, capacity)[j],
        forall|t: int|
            0 <= t < writes.len() && #[trigger] writes[t].0 == j && (forall|u: int|
                t < u < writes.len() ==> #[trigger] writes[u].0 != j) ==> cells(
                runs_after_writes(runs, capacity, writes),
                capacity,
            )[j] == writes[t].1,
    decreases writes.len(),
{
    if writes.len() > 0 {
        let front = writes.drop_last();
        let last = writes.last();
        assert(forall|t: int| 0 <= t < front.len() ==> front[t] == writes[t]);
        lemma_writes(runs, capacity, front, j);
        let before = runs_after_writes(runs, capacity, front);
        lemma_set_correct(before, capacity, last.0, last.1);
        assert(0 <= writes[writes.len() - 1].0 < capacity);
        assert forall|t: int|
            0 <= t < writes.len() && #[trigger] writes[t].0 == j && (forall|u: int|
                t < u < writes.len() ==> #[trigger] writes[u].0 != j) implies cells(
            runs_after_writes(runs, capacity, writes),
            capacity,
        )[j] == writes[t].1 by {
            if t < writes.len() - 1 {
                assert(writes[writes.len() - 1].0 != j);
                assert(front[t].0 == j);
                assert forall|u: int| t < u < front.len() implies #[trigger] front[u].0 != j by {
                    assert(writes[u].0 != j);
                }
            }
        }
        if forall|t: int| 0 <= t < writes.len() ==> #[trigger] writes[t].0 != j {
            assert(writes[writes.len() - 1].0 != j);
            assert forall|t: int| 0 <= t < front.len() implies #[trigger] front[t].0 != j by {
                assert(writes[t].0 != j);
            }
        }
    }
}

/// An array of `capacity` cells stored as a sorted list of maximal runs.
#[derive(Clone, Debug)]
pub struct ContiguousIntervalTree<T> {
    intervals: Vec<IntervalNode<T>>,
    capacity: usize,
}

impl<T: Copy + PartialEq> ContiguousIntervalTree<T> {
    pub closed spec fn runs(&self) -> Seq<IntervalNode<T>> {
        self.intervals@
    }

    pub closed spec fn spec_capacity(&self) -> nat {
        self.capacity as nat
    }

    pub open spec fn wf(&self) -> bool {
        runs_valid(self.runs(), self.spec_capacity() as int)
    }

    /// The array's contents, one value per cell.
    pub open spec fn view(&self) -> Seq<T> {
        cells(self.runs(), self.spec_capacity() as int)
    }

    /// Builds an array from a run list; refuses a list that is empty, does not
    /// start at cell 0, is not strictly increasing, has a run at or past the
    /// capacity, or has two adjacent runs of equal value.
    pub fn new(nodes: Vec<IntervalNode<T>>, capacity: usize) -> (r: Option<Self>)
        requires
            obeys_concrete_eq::<T>(),
        ensures
            r.is_some() <==> runs_valid(nodes@, capacity as int),
            r matches Some(t) ==> t.runs() == nodes@ && t.spec_capacity() == capacity && t.wf(),
    {
        proof {
            reveal(obeys_concrete_eq);
        }
        let n = nodes.len();
        if n == 0 || nodes[0].cell_i_start != 0 {
            return None;
        }
        let mut j: usize = 1;
        while j < n
            invariant
                1 <= j <= n,
                n == nodes@.len(),
                nodes@[0].cell_i_start == 0,
                forall|a: int, b: int|
                    0 <= a < b < j ==> #[trigger] nodes@[a].cell_i_start
                        < #[trigger] nodes@[b].cell_i_start,
                forall|k: int| 0 <= k < j - 1 ==> #[trigger] nodes@[k].value != nodes@[k + 1].value,
                obeys_concrete_eq::<T>(),
            decreases n - j,
        {
            if nodes[j - 1].cell_i_start >= nodes[j].cell_i_start {
                proof {
                    assert(!runs_valid(nodes@, capacity as int)) by {
                        let a = j - 1;
                        let b = j as int;
                        assert(!(nodes@[a].cell_i_start < nodes@[b].cell_i_start));
                    }
                }
                return None;
            }
            if nodes[j - 1].value == nodes[j].value {
                proof {
                    reveal(obeys_concrete_eq);
                    assert(!runs_valid(nodes@, capacity as int)) by {
                        let k = j - 1;
                        assert(nodes@[k].value == nodes@[k + 1].value);
                    }
                }
                return None;
            }
            proof {
                reveal(obeys_concrete_eq);
                assert forall|a: int, b: int|
                    0 <= a < b < j + 1 implies #[trigger] nodes@[a].cell_i_start
                        < #[trigger] nodes@[b].cell_i_start by {
                    if b == j && a < j - 1 {
                        assert(nodes@[a].cell_i_start < nodes@[j - 1].cell_i_start);
                    }
                }
            }
            j = j + 1;
        }
        if nodes[n - 1].cell_i_start >= capacity {
            return None;
        }
        Some(ContiguousIntervalTree { intervals: nodes, capacity })
    }

    /// Number of cells.
    pub fn capacity(&self) -> (r: usize)
        ensures
            r == self.spec_capacity(),
    {
        self.capacity
    }

    /// The runs, in order.
    pub fn intervals(&self) -> (r: &Vec<IntervalNode<T>>)
        ensures
            r@ == self.runs(),
    {
        &self.intervals
    }

    /// Number of runs.
    pub fn run_count(&self) -> (r: usize)
        ensures
            r == self.runs().len(),
    {
        self.intervals.len()
    }

    /// The first cell past run `k`.
    fn interval_cell_i_end(&self, k: usize) -> (r: usize)
        requires
            self.wf(),
            k < self.runs().len(),
        ensures
            r == run_end(self.runs(), self.spec_capacity() as int, k as int),
            r <= self.spec_capacity(),
    {
        if k < self.intervals.len() - 1 {
            proof {
                let l = (self.runs().len() - 1) as int;
                if k + 1 < l {
                    assert(self.runs()[k + 1].cell_i_start < self.runs()[l].cell_i_start);
                }
            }
            self.intervals[k + 1].cell_i_start
        } else {
            self.capacity
        }
    }

    /// Binary search for the run that covers `cell_i`.
    fn interval_i(&self, cell_i: usize) -> (k: usize)
        requires
            self.wf(),
            cell_i < self.spec_capacity(),
        ensures
            run_contains(self.runs(), self.spec_capacity() as int, k as int, cell_i as int),
            k == run_index(self.runs(), self.spec_capacity() as int, cell_i as int),
    {
        let ghost runs = self.runs();
        let ghost cap = self.spec_capacity() as int;
        let mut lo: usize = 0;
        let mut hi: usize = self.intervals.len();
        while hi - lo > 1
            invariant
                self.wf(),
                runs == self.runs(),
                cap == self.spec_capacity(),
                cell_i < cap,
                lo < hi <= runs.len(),
                runs[lo as int].cell_i_start <= cell_i,
                hi < runs.len() ==> runs[hi as int].cell_i_start > cell_i,
            decreases hi - lo,
        {
            let mid = lo + (hi - lo) / 2;
            if self.intervals[mid].cell_i_start <= cell_i {
                lo = mid;
            } else {
                hi = mid;
            }
        }
        proof {
            assert(run_contains(runs, cap, lo as int, cell_i as int));
            lemma_run_unique(runs, cap, lo as int, cell_i as int);
        }
        lo
    }

    /// Sets cell `index` to `value`, keeping the runs maximal; O(m) in the
    /// number of runs. A value that the cell already holds changes nothing.
    /// Sets cell `index` to `value`, keeping the runs maximal; O(m) in the
    /// number of runs. A value that the cell already holds changes nothing.
    pub fn set(&mut self, index: usize, value: T)
        requires
            old(self).wf(),
            index < old(self)@.len(),
            obeys_concrete_eq::<T>(),
        ensures
            final(self).wf(),
            final(self).spec_capacity() == old(self).spec_capacity(),
            final(self)@ == old(self)@.update(index as int, value),
            final(self).runs() == runs_after_set(
                old(self).runs(),
                old(self).spec_capacity() as int,
                index as int,
                value,
            ),
    {
        proof {
            reveal(obeys_concrete_eq);
            lemma_set_correct(self.runs(), self.spec_capacity() as int, index as int, value);
        }
        let ghost runs = self.runs();
        let ghost cap = self.spec_capacity() as int;
        let ghost i = index as int;
        let ghost n = runs_after_set(runs, cap, i, value);
        let k = self.interval_i(index);
        let s = self.intervals[k].cell_i_start;
        let e = self.interval_cell_i_end(k);
        let w = self.intervals[k].value;
        if w == value {
            return;
        }
        let joins_prev = s == index && k > 0 && self.intervals[k - 1].value == value;
        let joins_next = index + 1 == e && k < self.intervals.len() - 1
            && self.intervals[k + 1].value == value;
        if s == index && e == index + 1 {
            if joins_prev && joins_next {
                // The cell fills the gap between two runs of its new value.
                self.intervals.remove(k);
                self.intervals.remove(k);
            } else if joins_prev {
                self.intervals.remove(k);
            } else if joins_next {
                self.intervals.set(k, IntervalNode { cell_i_start: index, value });
                self.intervals.remove(k + 1);
            } else {
                self.intervals.set(k, IntervalNode { cell_i_start: index, value });
            }
        } else if s == index {
            // The run cedes its first cell and starts one later.
            self.intervals.set(k, IntervalNode { cell_i_start: index + 1, value: w });
            if !joins_prev {
                self.intervals.insert(k, IntervalNode { cell_i_start: index, value });
            }
        } else if index + 1 == e {
            if joins_next {
                // The next run grows back by one cell.
                self.intervals.set(k + 1, IntervalNode { cell_i_start: index, value });
            } else {
                self.intervals.insert(k + 1, IntervalNode { cell_i_start: index, value });
            }
        } else {
            // Split into three: the head keeps `k`'s place.
            assert(k < self.intervals.len());
            self.intervals.insert(k + 1, IntervalNode { cell_i_start: index + 1, value: w });
            self.intervals.insert(k + 1, IntervalNode { cell_i_start: index, value });
        }
        assert(self.runs() =~= n);
    }

    /// The value of cell `index`; O(log m) in the number of runs.
    pub fn get(&self, index: usize) -> (r: &T)
        requires
            self.wf(),
            index < self@.len(),
        ensures
            *r == self@[index as int],
    {
        let k = self.interval_i(index);
        &self.intervals[k].value
    }

    /// A cursor over the cells from cell 0.
    pub fn cell_wise_iter(&self) -> (r: CellWiseIter<'_, T>)
        requires
            self.wf(),
        ensures
            r.wf(),
            r.tree() == *self,
            r.pos() == 0,
    {
        CellWiseIter::new(self)
    }

    /// A cursor over the cells from cell `index`.
    pub fn cell_wise_iter_from(&self, index: usize) -> (r: CellWiseIter<'_, T>)
        requires
            self.wf(),
            index < self@.len(),
        ensures
            r.wf(),
            r.tree() == *self,
            r.pos() == index,
    {
        let k = self.interval_i(index);
        CellWiseIter { tree: self, interval_i: k, cell_i: index }
    }
}

/// A cursor that hands out the cells of a run-length array one by one in
/// ascending order, each run's value once for each of its cells.
#[derive(Clone, Copy, Debug)]
pub struct CellWiseIter<'a, T> {
    tree: &'a ContiguousIntervalTree<T>,
    interval_i: usize,
    cell_i: usize,
}

impl<'a, T: Copy + PartialEq> CellWiseIter<'a, T> {
    pub closed spec fn tree(&self) -> ContiguousIntervalTree<T> {
        *self.tree
    }

    /// The index of the cell that comes next; the capacity once all are out.
    pub closed spec fn pos(&self) -> nat {
        self.cell_i as nat
    }

    pub closed spec fn wf(&self) -> bool {
        &&& self.tree.wf()
        &&& self.cell_i <= self.tree.capacity
        &&& self.cell_i < self.tree.capacity ==> run_contains(
            self.tree.intervals@,
            self.tree.capacity as int,
            self.interval_i as int,
            self.cell_i as int,
        )
        &&& self.cell_i == self.tree.capacity ==> self.interval_i == self.tree.intervals@.len()
    }

    pub fn new(tree: &'a ContiguousIntervalTree<T>) -> (r: Self)
        requires
            tree.wf(),
        ensures
            r.wf(),
            r.tree() == *tree,
            r.pos() == 0,
    {
        proof {
            let l = (tree.runs().len() - 1) as int;
            if l > 0 {
                assert(tree.runs()[0].cell_i_start < tree.runs()[l].cell_i_start);
            }
            assert(run_contains(tree.runs(), tree.spec_capacity() as int, 0, 0));
        }
        CellWiseIter { tree, interval_i: 0, cell_i: 0 }
    }

    /// The next cell's value, or `None` once every cell has been handed out.
    pub fn next(&mut self) -> (r: Option<&'a T>)
        requires
            old(self).wf(),
        ensures
            final(self).wf(),
            final(self).tree() == old(self).tree(),
            old(self).pos() < old(self).tree()@.len() ==> r.is_some() && *r.unwrap() == old(
                self,
            ).tree()@[old(self).pos() as int] && final(self).pos() == old(self).pos() + 1,
            old(self).pos() >= old(self).tree()@.len() ==> r.is_none() && final(self).pos()
                == old(self).pos(),
    {
        if self.cell_i == self.tree.capacity {
            return None;
        }
        let tree: &'a ContiguousIntervalTree<T> = self.tree;
        proof {
            lemma_run_unique(tree.runs(), tree.spec_capacity() as int, self.interval_i as int, self.cell_i as int);
        }
        let k = self.interval_i;
        let end = tree.interval_cell_i_end(k);
        assert(k < tree.intervals.len());
        self.cell_i = self.cell_i + 1;
        if self.cell_i == end {
            self.interval_i = k + 1;
        }
        Some(&tree.intervals[k].value)
    }

    /// The index of the cell that comes next.
    pub fn position(&self) -> (r: usize)
        ensures
            r == self.pos(),
    {
        self.cell_i
    }

    /// The value `n` cells further on, or `None` past the last cell.
    pub fn nth(&mut self, n: usize) -> (r: Option<&'a T>)
        requires
            old(self).wf(),
        ensures
            final(self).wf(),
            final(self).tree() == old(self).tree(),
            old(self).pos() + n < old(self).tree()@.len() ==> r.is_some() && *r.unwrap() == old(
                self,
            ).tree()@[old(self).pos() + n] && final(self).pos() == old(self).pos() + n + 1,
            old(self).pos() + n >= old(self).tree()@.len() ==> r.is_none(),
    {
        let mut left: usize = n;
        while left > 0
            invariant
                self.wf(),
                self.tree() == old(self).tree(),
                self.pos() + left == old(self).pos() + n || (self.pos() == self.tree()@.len() && old(self).pos() + n >= self.tree()@.len()),
            decreases left,
        {
            let _ = self.next();
            left = left - 1;
        }
        self.next()
    }
}

} // verus!
