//! Banker-style deadlock detection over the resources of one process.
//!
//! Every mutex and every semaphore of a process is a resource type with a
//! number of instances. For each thread the detector records how many
//! instances it holds and how many it is waiting for. A state is safe when
//! the threads can be put in an order in which each one's wait can be met
//! from what is available together with what the threads before it hold.

use vstd::prelude::*;

verus! {

/// The resource-allocation state of one process.
pub struct ResourceAllocation {
    /// Free instances of each resource type.
    pub available: Vec<usize>,
    /// Instances held, by thread row and resource type.
    pub allocation: Vec<Vec<usize>>,
    /// Instances waited for, by thread row and resource type.
    pub need: Vec<Vec<usize>>,
    /// The thread id of each row.
    pub tid_list: Vec<usize>,
    /// Which threads the last safety check found able to finish.
    pub finish: Vec<bool>,
    /// All instances of each resource type, free or held.
    pub maximum: Vec<usize>,
}

/// The resource-allocation state as mathematics: the same tables over
/// unbounded integers.
#[verifier::ext_equal]
pub struct ResourceView {
    /// Free instances of each resource type.
    pub available: Seq<int>,
    /// Instances held, by thread row and resource type.
    pub allocation: Seq<Seq<int>>,
    /// Instances waited for, by thread row and resource type.
    pub need: Seq<Seq<int>>,
    /// The thread id of each row.
    pub tid_list: Seq<usize>,
    /// Which threads the last safety check found able to finish.
    pub finish: Seq<bool>,
    /// All instances of each resource type, free or held.
    pub maximum: Seq<int>,
}

/// The first row at or after `from` that belongs to `tid`, or -1.
pub open spec fn row_from(tids: Seq<usize>, tid: usize, from: int) -> int
    decreases tids.len() - from,
{
    if from < 0 || from >= tids.len() {
        -1
    } else if tids[from] == tid {
        from
    } else {
        row_from(tids, tid, from + 1)
    }
}

/// `row_from` finds a row of the thread, and the first one.
pub proof fn lemma_row_from(tids: Seq<usize>, tid: usize, from: int)
    requires
        0 <= from,
    ensures
        row_from(tids, tid, from) == -1 <==> forall|i: int|
            from <= i < tids.len() ==> tids[i] != tid,
        row_from(tids, tid, from) != -1 ==> {
            let row = row_from(tids, tid, from);
            &&& from <= row < tids.len()
            &&& tids[row] == tid
            &&& forall|i: int| from <= i < row ==> tids[i] != tid
        },
    decreases tids.len() - from,
{
    if from < tids.len() && tids[from] != tid {
        lemma_row_from(tids, tid, from + 1);
    }
}

/// A list of distinct rows below `n` has at most `n` entries, and holds
/// every row exactly when it has `n`.
pub proof fn lemma_distinct_rows(order: Seq<int>, n: int)
    requires
        0 <= n,
        order.no_duplicates(),
        forall|k: int| 0 <= k < order.len() ==> 0 <= #[trigger] order[k] < n,
    ensures
        order.len() <= n,
        order.len() == n <==> forall|t: int| 0 <= t < n ==> order.contains(t),
{
    let range = vstd::set_lib::set_int_range(0, n);
    order.unique_seq_to_set();
    vstd::set_lib::lemma_int_range(0, n);
    assert(order.to_set().subset_of(range)) by {
        assert forall|t: int| order.to_set().contains(t) implies range.contains(t) by {
            let k = choose|k: int| 0 <= k < order.len() && order[k] == t;
            assert(0 <= order[k] < n);
        }
    }
    vstd::set_lib::lemma_len_subset(order.to_set(), range);
    if order.len() == n {
        vstd::set_lib::lemma_subset_equality(order.to_set(), range);
        assert forall|t: int| 0 <= t < n implies order.contains(t) by {
            assert(range.contains(t));
            assert(order.to_set().contains(t));
        }
    }
    if forall|t: int| 0 <= t < n ==> order.contains(t) {
        assert(order.to_set() =~= range) by {
            assert forall|t: int| range.contains(t) implies order.to_set().contains(t) by {
                assert(order.contains(t));
            }
        }
    }
}

/// The first position at or before `k` whose row is not in `inside`.
pub proof fn lemma_first_outside(order: Seq<int>, inside: Set<int>, k: int) -> (first: int)
    requires
        0 <= k < order.len(),
        !inside.contains(order[k]),
    ensures
        0 <= first <= k,
        !inside.contains(order[first]),
        forall|j: int| 0 <= j < first ==> inside.contains(#[trigger] order[j]),
    decreases k,
{
    if exists|j: int| 0 <= j < k && !inside.contains(#[trigger] order[j]) {
        let j = choose|j: int| 0 <= j < k && !inside.contains(#[trigger] order[j]);
        lemma_first_outside(order, inside, j)
    } else {
        k
    }
}

impl ResourceView {
    /// The number of thread rows.
    pub open spec fn threads(&self) -> int {
        self.tid_list.len() as int
    }

    /// The number of resource types.
    pub open spec fn resources(&self) -> int {
        self.available.len() as int
    }

    /// Instances of `r` held by the thread of row `t`.
    pub open spec fn held(&self, t: int, r: int) -> int {
        self.allocation[t][r]
    }

    /// Instances of `r` that the thread of row `t` waits for.
    pub open spec fn wanted(&self, t: int, r: int) -> int {
        self.need[t][r]
    }

    /// Instances of `r` held by the threads of `rows` among the first `n`
    /// rows.
    pub open spec fn held_upto(&self, rows: Set<int>, r: int, n: int) -> int
        decreases n,
    {
        if n <= 0 {
            0
        } else {
            self.held_upto(rows, r, n - 1) + (if rows.contains(n - 1) {
                self.held(n - 1, r)
            } else {
                0
            })
        }
    }

    /// Instances of `r` held by the threads of `rows`.
    pub open spec fn held_by(&self, rows: Set<int>, r: int) -> int {
        self.held_upto(rows, r, self.threads())
    }

    /// Instances of `r` held by all threads together.
    pub open spec fn total_held(&self, r: int) -> int {
        self.held_by(Set::full(), r)
    }

    /// The row of thread `tid`: the first one with that id, or -1.
    pub open spec fn row_of(&self, tid: usize) -> int {
        row_from(self.tid_list, tid, 0)
    }

    /// Well-formedness: the matrices have one row per thread and one column
    /// per resource type, and of every resource type the instances held
    /// and the free ones together are all its instances.
    pub open spec fn wf(&self) -> bool {
        &&& self.maximum.len() == self.resources()
        &&& self.allocation.len() == self.threads()
        &&& self.need.len() == self.threads()
        &&& self.finish.len() == self.threads()
        &&& forall|t: int|
            0 <= t < self.threads() ==> (#[trigger] self.allocation[t]).len() == self.resources()
        &&& forall|t: int|
            0 <= t < self.threads() ==> (#[trigger] self.need[t]).len() == self.resources()
        &&& forall|t: int, r: int|
            0 <= t < self.threads() && 0 <= r < self.resources() ==> 0 <= #[trigger] self.held(t, r)
        &&& forall|t: int, r: int|
            0 <= t < self.threads() && 0 <= r < self.resources() ==> 0 <= #[trigger] self.wanted(
                t,
                r,
            )
        &&& forall|r: int| 0 <= r < self.resources() ==> 0 <= #[trigger] self.available[r]
        &&& forall|r: int|
            0 <= r < self.resources() ==> self.total_held(r) + self.available[r]
                == #[trigger] self.maximum[r]
    }

    /// Whether the wait of row `t` can be met once the threads of `before`
    /// have given back what they hold.
    pub open spec fn can_run(&self, t: int, before: Set<int>) -> bool {
        forall|r: int|
            0 <= r < self.resources() ==> #[trigger] self.wanted(t, r) <= self.available[r]
                + self.held_by(before, r)
    }

    /// Whether `order` lists every row once, each able to run after those
    /// before it.
    pub open spec fn safe_order(&self, order: Seq<int>) -> bool {
        &&& order.len() == self.threads()
        &&& order.no_duplicates()
        &&& forall|k: int| 0 <= k < order.len() ==> 0 <= #[trigger] order[k] < self.threads()
        &&& forall|k: int|
            0 <= k < order.len() ==> self.can_run(#[trigger] order[k], order.take(k).to_set())
    }

    /// Banker's safety: some order lets every thread finish.
    pub open spec fn safe(&self) -> bool {
        exists|order: Seq<int>| self.safe_order(order)
    }

    /// Holding grows with the set of threads counted.
    pub proof fn lemma_held_monotonic(&self, small: Set<int>, large: Set<int>, r: int, n: int)
        requires
            small.subset_of(large),
            forall|t: int| 0 <= t < n ==> 0 <= #[trigger] self.held(t, r),
        ensures
            0 <= self.held_upto(small, r, n) <= self.held_upto(large, r, n),
        decreases n,
    {
        if n > 0 {
            self.lemma_held_monotonic(small, large, r, n - 1);
        }
    }

    /// One more thread counted adds what it holds.
    pub proof fn lemma_held_insert(&self, rows: Set<int>, t: int, r: int, n: int)
        requires
            !rows.contains(t),
        ensures
            self.held_upto(rows.insert(t), r, n) == self.held_upto(rows, r, n) + (if 0 <= t < n {
                self.held(t, r)
            } else {
                0
            }),
        decreases n,
    {
        if n > 0 {
            self.lemma_held_insert(rows, t, r, n - 1);
        }
    }

    /// What is counted depends only on the rows below `n`.
    pub proof fn lemma_held_same(&self, other: Self, rows: Set<int>, r: int, n: int)
        requires
            forall|t: int| 0 <= t < n ==> self.held(t, r) == other.held(t, r),
        ensures
            self.held_upto(rows, r, n) == other.held_upto(rows, r, n),
        decreases n,
    {
        if n > 0 {
            self.lemma_held_same(other, rows, r, n - 1);
        }
    }

    /// A change of one cell changes the count by as much, where the row is
    /// counted.
    pub proof fn lemma_held_cell(&self, other: Self, rows: Set<int>, row: int, r: int, n: int)
        requires
            forall|t: int| 0 <= t < n && t != row ==> self.held(t, r) == other.held(t, r),
        ensures
            self.held_upto(rows, r, n) == other.held_upto(rows, r, n) + (if 0 <= row < n
                && rows.contains(row) {
                self.held(row, r) - other.held(row, r)
            } else {
                0
            }),
        decreases n,
    {
        if n > 0 {
            self.lemma_held_cell(other, rows, row, r, n - 1);
        }
    }

    /// One row holds no more than all rows together.
    pub proof fn lemma_row_within_total(&self, row: int, r: int)
        requires
            0 <= row < self.threads(),
            forall|t: int| 0 <= t < self.threads() ==> 0 <= #[trigger] self.held(t, r),
        ensures
            0 <= self.held(row, r) <= self.total_held(r),
    {
        let one = Set::<int>::empty().insert(row);
        self.lemma_held_insert(Set::empty(), row, r, self.threads());
        self.lemma_held_zero(Set::empty(), r, self.threads());
        self.lemma_held_monotonic(one, Set::full(), r, self.threads());
    }

    /// Nothing counted, nothing held.
    pub proof fn lemma_held_zero(&self, rows: Set<int>, r: int, n: int)
        requires
            forall|t: int| 0 <= t < n && rows.contains(t) ==> self.held(t, r) == 0,
        ensures
            self.held_upto(rows, r, n) == 0,
        decreases n,
    {
        if n > 0 {
            self.lemma_held_zero(rows, r, n - 1);
        }
    }


    /// The state with no thread and no resource.
    pub open spec fn empty() -> Self {
        ResourceView {
            available: Seq::empty(),
            allocation: Seq::empty(),
            need: Seq::empty(),
            tid_list: Seq::empty(),
            finish: Seq::empty(),
            maximum: Seq::empty(),
        }
    }

    /// The state with one more resource type, of `count` free instances.
    pub open spec fn with_resource(self, count: int) -> Self {
        ResourceView {
            available: self.available.push(count),
            maximum: self.maximum.push(count),
            allocation: Seq::new(self.allocation.len(), |t: int| self.allocation[t].push(0)),
            need: Seq::new(self.need.len(), |t: int| self.need[t].push(0)),
            ..self
        }
    }

    /// The state with one more row, for thread `tid`, which holds nothing
    /// and waits for nothing.
    pub open spec fn with_thread(self, tid: usize) -> Self {
        ResourceView {
            tid_list: self.tid_list.push(tid),
            finish: self.finish.push(false),
            allocation: self.allocation.push(Seq::new(self.available.len(), |r: int| 0int)),
            need: self.need.push(Seq::new(self.available.len(), |r: int| 0int)),
            ..self
        }
    }

    /// The state in which row `row` waits for `delta` more instances of `r`.
    pub open spec fn with_wait(self, row: int, r: int, delta: int) -> Self {
        ResourceView {
            need: self.need.update(row, self.need[row].update(r, self.need[row][r] + delta)),
            ..self
        }
    }

    /// The state after row `row` was granted one instance of `r`: it moved
    /// from the free ones to those held, and the row waits for `r` no longer.
    pub open spec fn granted(self, row: int, r: int) -> Self {
        ResourceView {
            available: self.available.update(r, self.available[r] - 1),
            allocation: self.allocation.update(
                row,
                self.allocation[row].update(r, self.allocation[row][r] + 1),
            ),
            need: self.need.update(row, self.need[row].update(r, 0)),
            ..self
        }
    }

    /// The state after row `row` gave back one instance of `r`.
    pub open spec fn released(self, row: int, r: int) -> Self {
        ResourceView {
            available: self.available.update(r, self.available[r] + 1),
            allocation: self.allocation.update(
                row,
                self.allocation[row].update(r, self.allocation[row][r] - 1),
            ),
            ..self
        }
    }

    /// The state after row `row` gave back everything it held.
    pub open spec fn released_all(self, row: int) -> Self {
        ResourceView {
            available: Seq::new(
                self.available.len(),
                |r: int| self.available[r] + self.allocation[row][r],
            ),
            allocation: self.allocation.update(
                row,
                Seq::new(self.available.len(), |r: int| 0int),
            ),
            ..self
        }
    }

    /// The state with one more free instance of `r`.
    pub open spec fn with_instance(self, r: int) -> Self {
        ResourceView {
            available: self.available.update(r, self.available[r] + 1),
            maximum: self.maximum.update(r, self.maximum[r] + 1),
            ..self
        }
    }

    /// The state after row `row` asked for one instance of `r`; a wait
    /// that is at the limit of the counter stays.
    pub open spec fn note_request(self, row: int, r: int) -> Self {
        if self.wanted(row, r) < usize::MAX {
            self.with_wait(row, r, 1)
        } else {
            self
        }
    }

    /// The state after row `row` gave up asking for one instance of `r`.
    pub open spec fn note_withdraw(self, row: int, r: int) -> Self {
        if self.wanted(row, r) >= 1 {
            self.with_wait(row, r, -1)
        } else {
            self
        }
    }

    /// The state after row `row` took an instance of `r`. Where none was
    /// free, one more instance is taken note of first; where the count of
    /// instances is at its limit, nothing changes.
    pub open spec fn note_grant(self, row: int, r: int) -> Self {
        if self.available[r] >= 1 {
            self.granted(row, r)
        } else if self.maximum[r] < usize::MAX {
            self.with_instance(r).granted(row, r)
        } else {
            self
        }
    }

    /// The state after row `row` gave back an instance of `r`. Where it
    /// held none, one more instance is taken note of instead; where the
    /// count of instances is at its limit, nothing changes.
    pub open spec fn note_release(self, row: int, r: int) -> Self {
        if self.held(row, r) >= 1 {
            self.released(row, r)
        } else if self.maximum[r] < usize::MAX {
            self.with_instance(r)
        } else {
            self
        }
    }

    /// Whether row `n` belongs to thread `n`, for every row.
    pub open spec fn rows_are_tids(self) -> bool {
        forall|t: int| 0 <= t < self.tid_list.len() ==> #[trigger] self.tid_list[t] == t
    }

    /// Where row `n` belongs to thread `n`, a thread is found in its row.
    pub proof fn lemma_rows_are_tids(self, tid: usize)
        requires
            self.rows_are_tids(),
        ensures
            self.row_of(tid) == (if tid < self.threads() {
                tid as int
            } else {
                -1
            }),
    {
        lemma_row_from(self.tid_list, tid, 0);
        if tid < self.threads() {
            assert(self.tid_list[tid as int] == tid);
        }
    }

    /// Whether two states agree on everything but `finish`.
    pub open spec fn same_tables(self, other: Self) -> bool {
        &&& self.available == other.available
        &&& self.allocation == other.allocation
        &&& self.need == other.need
        &&& self.tid_list == other.tid_list
        &&& self.maximum == other.maximum
    }

    /// Whether two states agree on everything but the cells of row `row`
    /// and column `r`, and on `maximum`.
    pub open spec fn same_but_cell(&self, before: Self, row: int, r: int) -> bool {
        &&& self.tid_list == before.tid_list
        &&& self.maximum == before.maximum
        &&& self.finish.len() == before.finish.len()
        &&& self.available.len() == before.available.len()
        &&& self.allocation.len() == before.allocation.len()
        &&& self.need.len() == before.need.len()
        &&& forall|c: int|
            0 <= c < self.resources() && c != r ==> #[trigger] self.available[c]
                == before.available[c]
        &&& forall|t: int|
            0 <= t < self.threads() && t != row ==> #[trigger] self.allocation[t]
                == before.allocation[t]
        &&& forall|t: int|
            0 <= t < self.threads() && t != row ==> #[trigger] self.need[t] == before.need[t]
        &&& self.allocation[row].len() == before.allocation[row].len()
        &&& self.need[row].len() == before.need[row].len()
        &&& forall|c: int|
            0 <= c < self.resources() && c != r ==> #[trigger] self.held(row, c) == before.held(
                row,
                c,
            )
        &&& forall|c: int|
            0 <= c < self.resources() && c != r ==> #[trigger] self.wanted(row, c)
                == before.wanted(row, c)
    }

    /// A change in the cell of row `row` and column `r` alone keeps the
    /// state well-formed where the instances of `r` still add up and
    /// nothing became negative.
    pub proof fn lemma_cell_wf(&self, before: Self, row: int, r: int)
        requires
            before.wf(),
            0 <= row < before.threads(),
            0 <= r < before.resources(),
            self.same_but_cell(before, row, r),
            self.held(row, r) + self.available[r] == before.held(row, r) + before.available[r],
            0 <= self.held(row, r),
            0 <= self.wanted(row, r),
            0 <= self.available[r],
        ensures
            self.wf(),
    {
        assert forall|t: int, c: int|
            0 <= t < self.threads() && 0 <= c < self.resources() implies 0 <= #[trigger] self.held(
            t,
            c,
        ) by {
            if t != row {
                assert(self.allocation[t] == before.allocation[t]);
                assert(0 <= before.held(t, c));
            } else if c != r {
                assert(0 <= before.held(t, c));
            }
        }
        assert forall|t: int, c: int|
            0 <= t < self.threads() && 0 <= c < self.resources() implies 0
            <= #[trigger] self.wanted(t, c) by {
            if t != row {
                assert(self.need[t] == before.need[t]);
                assert(0 <= before.wanted(t, c));
            } else if c != r {
                assert(0 <= before.wanted(t, c));
            }
        }
        assert forall|t: int| 0 <= t < self.threads() implies (#[trigger] self.allocation[t]).len()
            == self.resources() by {
            if t != row {
                assert(self.allocation[t] == before.allocation[t]);
            }
        }
        assert forall|t: int| 0 <= t < self.threads() implies (#[trigger] self.need[t]).len()
            == self.resources() by {
            if t != row {
                assert(self.need[t] == before.need[t]);
            }
        }
        assert forall|c: int| 0 <= c < self.resources() implies self.total_held(c)
            + self.available[c] == #[trigger] self.maximum[c] by {
            assert forall|t: int| 0 <= t < self.threads() && t != row implies self.held(t, c)
                == before.held(t, c) by {
                assert(self.allocation[t] == before.allocation[t]);
            }
            if c == r {
                self.lemma_held_cell(before, Set::full(), row, c, self.threads());
            } else {
                assert(self.held(row, c) == before.held(row, c));
                self.lemma_held_same(before, Set::full(), c, self.threads());
            }
            assert(before.total_held(c) + before.available[c] == before.maximum[c]);
        }
        assert forall|c: int| 0 <= c < self.resources() implies 0 <= #[trigger] self.available[c] by {
            if c != r {
                assert(0 <= before.available[c]);
            }
        }
    }

    /// A grant of a free instance keeps the state well-formed.
    pub proof fn lemma_granted_wf(self, row: int, r: int)
        requires
            self.wf(),
            0 <= row < self.threads(),
            0 <= r < self.resources(),
            self.available[r] >= 1,
        ensures
            self.granted(row, r).wf(),
    {
        assert(0 <= self.held(row, r));
        self.granted(row, r).lemma_cell_wf(self, row, r);
    }

    /// Giving back an instance that is held keeps the state well-formed.
    pub proof fn lemma_released_wf(self, row: int, r: int)
        requires
            self.wf(),
            0 <= row < self.threads(),
            0 <= r < self.resources(),
            self.held(row, r) >= 1,
        ensures
            self.released(row, r).wf(),
    {
        assert(0 <= self.wanted(row, r));
        assert(0 <= self.available[r]);
        self.released(row, r).lemma_cell_wf(self, row, r);
    }

    /// A wait that stays at or above zero keeps the state well-formed.
    pub proof fn lemma_with_wait_wf(self, row: int, r: int, delta: int)
        requires
            self.wf(),
            0 <= row < self.threads(),
            0 <= r < self.resources(),
            self.wanted(row, r) + delta >= 0,
        ensures
            self.with_wait(row, r, delta).wf(),
    {
        assert(0 <= self.held(row, r));
        assert(0 <= self.available[r]);
        self.with_wait(row, r, delta).lemma_cell_wf(self, row, r);
    }

    /// What the tables say decides safety; `finish` does not.
    pub proof fn lemma_same_tables_safe(self, other: Self)
        requires
            self.same_tables(other),
        ensures
            self.safe() == other.safe(),
    {
        if self.safe() {
            let order = choose|order: Seq<int>| self.safe_order(order);
            other.lemma_same_tables_order(self, order);
        }
        if other.safe() {
            let order = choose|order: Seq<int>| other.safe_order(order);
            self.lemma_same_tables_order(other, order);
        }
    }

    proof fn lemma_same_tables_order(self, other: Self, order: Seq<int>)
        requires
            self.same_tables(other),
            other.safe_order(order),
        ensures
            self.safe_order(order),
    {
        assert forall|k: int| 0 <= k < order.len() implies self.can_run(
            #[trigger] order[k],
            order.take(k).to_set(),
        ) by {
            assert(other.can_run(order[k], order.take(k).to_set()));
            assert forall|r: int| 0 <= r < self.resources() implies #[trigger] self.wanted(
                order[k],
                r,
            ) <= self.available[r] + self.held_by(order.take(k).to_set(), r) by {
                assert(other.wanted(order[k], r) <= other.available[r] + other.held_by(
                    order.take(k).to_set(),
                    r,
                ));
                self.lemma_held_same(other, order.take(k).to_set(), r, self.threads());
            }
        }
    }

    /// A grant in a safe state leaves the state safe, where the thread
    /// that is granted the instance waits for nothing else: it can then
    /// finish first, and give back more than the grant took.
    pub proof fn lemma_grant_keeps_safe(self, row: int, r: int)
        requires
            self.wf(),
            0 <= row < self.threads(),
            0 <= r < self.resources(),
            self.available[r] >= 1,
            self.safe(),
            forall|c: int| 0 <= c < self.resources() && c != r ==> self.wanted(row, c) == 0,
        ensures
            self.granted(row, r).wf(),
            self.granted(row, r).safe(),
    {
        let before = self;
        let self_ = self.granted(row, r);
        self.lemma_granted_wf(row, r);
        let n = before.threads();
        let order = choose|order: Seq<int>| before.safe_order(order);
        lemma_distinct_rows(order, n);
        assert(order.contains(row));
        let j = choose|j: int| 0 <= j < order.len() && order[j] == row;
        let rest = order.remove(j);
        let next = seq![row] + rest;
        assert forall|t: int, c: int| 0 <= t < n && t != row implies self_.held(t, c) == before.held(
            t,
            c,
        ) && self_.wanted(t, c) == before.wanted(t, c) by {
            assert(self_.allocation[t] == before.allocation[t]);
            assert(self_.need[t] == before.need[t]);
        }
        assert(next.no_duplicates()) by {
            assert forall|a: int, b: int| 0 <= a < next.len() && 0 <= b < next.len() && a
                != b implies next[a] != next[b] by {
                let ia = if a == 0 { j } else if a - 1 < j { a - 1 } else { a };
                let ib = if b == 0 { j } else if b - 1 < j { b - 1 } else { b };
                assert(next[a] == order[ia]);
                assert(next[b] == order[ib]);
            }
        }
        assert forall|k: int| 0 <= k < next.len() implies 0 <= #[trigger] next[k] < self_.threads() by {
            let ik = if k == 0 { j } else if k - 1 < j { k - 1 } else { k };
            assert(next[k] == order[ik]);
        }
        assert forall|k: int| 0 <= k < next.len() implies self_.can_run(
            #[trigger] next[k],
            next.take(k).to_set(),
        ) by {
            let rows = next.take(k).to_set();
            if k == 0 {
                assert forall|c: int| 0 <= c < self_.resources() implies (#[trigger] self_.wanted(
                    row,
                    c,
                )) <= self_.available[c] + self_.held_by(rows, c) by {
                    self_.lemma_held_monotonic(rows, rows, c, self_.threads());
                    assert(0 <= self_.available[c]);
                    if c != r {
                        assert(before.wanted(row, c) == 0);
                    }
                }
            } else {
                let m = if k - 1 < j { k - 1 } else { k };
                let u = order[m];
                assert(next[k] == u);
                assert(u != row);
                let prior = order.take(m).to_set();
                assert(rows.contains(row)) by {
                    assert(next.take(k)[0] == row);
                }
                assert(prior.subset_of(rows)) by {
                    assert forall|x: int| prior.contains(x) implies rows.contains(x) by {
                        let i = choose|i: int| 0 <= i < m && order.take(m)[i] == x;
                        if i == j {
                        } else {
                            let p = if i < j { i + 1 } else { i };
                            assert(next.take(k)[p] == order[i]);
                        }
                    }
                }
                assert(before.can_run(u, prior));
                assert forall|c: int| 0 <= c < self_.resources() implies (#[trigger] self_.wanted(
                    u,
                    c,
                )) <= self_.available[c] + self_.held_by(rows, c) by {
                    assert(before.wanted(u, c) <= before.available[c] + before.held_by(prior, c));
                    before.lemma_held_monotonic(prior, rows, c, n);
                    if c == r {
                        self_.lemma_held_cell(before, rows, row, c, n);
                    } else {
                        assert(self_.held(row, c) == before.held(row, c));
                        self_.lemma_held_same(before, rows, c, n);
                    }
                }
            }
        }
        assert(self_.safe_order(next));
    }
}

impl View for ResourceAllocation {
    type V = ResourceView;

    open spec fn view(&self) -> ResourceView {
        ResourceView {
            available: self.available@.map_values(|x: usize| x as int),
            allocation: self.allocation@.map_values(
                |row: Vec<usize>| row@.map_values(|x: usize| x as int),
            ),
            need: self.need@.map_values(|row: Vec<usize>| row@.map_values(|x: usize| x as int)),
            tid_list: self.tid_list@,
            finish: self.finish@,
            maximum: self.maximum@.map_values(|x: usize| x as int),
        }
    }
}

impl ResourceAllocation {
    /// Well-formedness: the tables are well-formed, and the rows can be
    /// numbered by a signed integer.
    pub open spec fn wf(&self) -> bool {
        &&& self@.wf()
        &&& self.tid_list@.len() <= isize::MAX
    }

    /// A state with no thread and no resource.
    pub fn new() -> (r: Self)
        ensures
            r.wf(),
            r@ == ResourceView::empty(),
    {
        let r = ResourceAllocation {
            available: Vec::new(),
            allocation: Vec::new(),
            need: Vec::new(),
            tid_list: Vec::new(),
            finish: Vec::new(),
            maximum: Vec::new(),
        };
        assert(r@ =~~= ResourceView::empty());
        r
    }

    /// The number of resource types.
    pub fn resources_types_num(&self) -> (n: usize)
        ensures
            n == self@.resources(),
    {
        self.available.len()
    }

    /// The row of thread `tid`, or -1 when it has none.
    pub fn find(&self, tid: usize) -> (idx: isize)
        requires
            self.wf(),
        ensures
            idx == self@.row_of(tid),
            -1 <= idx < self@.threads(),
            idx >= 0 ==> self@.tid_list[idx as int] == tid,
            idx == -1 <==> !self@.tid_list.contains(tid),
    {
        let mut i: usize = 0;
        proof {
            lemma_row_from(self.tid_list@, tid, 0);
        }
        while i < self.tid_list.len()
            invariant
                i <= self.tid_list@.len(),
                self.tid_list@.len() <= isize::MAX,
                row_from(self.tid_list@, tid, 0) == row_from(self.tid_list@, tid, i as int),
                forall|j: int| 0 <= j < i ==> self.tid_list@[j] != tid,
            decreases self.tid_list@.len() - i,
        {
            if self.tid_list[i] == tid {
                return i as isize;
            }
            i = i + 1;
        }
        -1
    }

    /// Adds a resource type with `res_count` instances, all of them free.
    pub fn add_res_type(&mut self, res_count: usize)
        requires
            old(self).wf(),
        ensures
            final(self).wf(),
            final(self)@ == old(self)@.with_resource(res_count as int),
    {
        let ghost before = self@;
        self.available.push(res_count);
        self.maximum.push(res_count);
        let n: usize = self.tid_list.len();
        let mut i: usize = 0;
        while i < n
            invariant
                before.wf(),
                i <= n,
                n == before.threads(),
                self.tid_list@ == before.tid_list,
                self.finish@ == before.finish,
                self@.available == before.available.push(res_count as int),
                self@.maximum == before.maximum.push(res_count as int),
                self.allocation@.len() == n,
                self.need@.len() == n,
                forall|t: int|
                    0 <= t < i ==> #[trigger] self@.allocation[t] == before.allocation[t].push(0),
                forall|t: int| 0 <= t < i ==> #[trigger] self@.need[t] == before.need[t].push(0),
                forall|t: int| i <= t < n ==> #[trigger] self@.allocation[t] == before.allocation[t],
                forall|t: int| i <= t < n ==> #[trigger] self@.need[t] == before.need[t],
            decreases n - i,
        {
            let ghost prev = self@;
            self.allocation[i].push(0);
            self.need[i].push(0);
            proof {
                assert(self@.available =~= prev.available);
                assert(self@.maximum =~= prev.maximum);
                assert(self@.allocation[i as int] =~= before.allocation[i as int].push(0)) by {
                    assert(prev.allocation[i as int] == before.allocation[i as int]);
                }
                assert(self@.need[i as int] =~= before.need[i as int].push(0)) by {
                    assert(prev.need[i as int] == before.need[i as int]);
                }
                assert forall|t: int| 0 <= t < n && t != i implies #[trigger] self@.allocation[t]
                    == prev.allocation[t] by {
                    assert(self@.allocation[t] =~= prev.allocation[t]);
                }
                assert forall|t: int| 0 <= t < n && t != i implies #[trigger] self@.need[t]
                    == prev.need[t] by {
                    assert(self@.need[t] =~= prev.need[t]);
                }
            }
            i = i + 1;
        }
        proof {
            let after = before.with_resource(res_count as int);
            assert(self@ =~~= after);
            let fresh = before.resources();
            assert forall|t: int, c: int|
                0 <= t < after.threads() && 0 <= c < after.resources() implies 0
                <= #[trigger] after.held(t, c) && 0 <= after.wanted(t, c) by {
                assert(before.allocation[t].len() == fresh);
                assert(before.need[t].len() == fresh);
                if c < fresh {
                    assert(0 <= before.held(t, c));
                    assert(0 <= before.wanted(t, c));
                }
            }
            assert forall|r: int| 0 <= r < after.resources() implies after.total_held(r)
                + after.available[r] == #[trigger] after.maximum[r] by {
                if r == fresh {
                    assert forall|t: int| 0 <= t < n implies after.held(t, r) == 0 by {
                        assert(before.allocation[t].len() == fresh);
                    }
                    after.lemma_held_zero(Set::full(), r, after.threads());
                } else {
                    assert forall|t: int| 0 <= t < n implies after.held(t, r) == before.held(
                        t,
                        r,
                    ) by {
                        assert(before.allocation[t].len() == fresh);
                    }
                    after.lemma_held_same(before, Set::full(), r, after.threads());
                    assert(before.total_held(r) + before.available[r] == before.maximum[r]);
                }
            }
            assert forall|t: int| 0 <= t < after.threads() implies (#[trigger] after.allocation[t]).len()
                == after.resources() by {
                assert(before.allocation[t].len() == fresh);
            }
            assert forall|t: int| 0 <= t < after.threads() implies (#[trigger] after.need[t]).len()
                == after.resources() by {
                assert(before.need[t].len() == fresh);
            }
            assert forall|r: int| 0 <= r < after.resources() implies 0
                <= #[trigger] after.available[r] by {
                if r < fresh {
                    assert(0 <= before.available[r]);
                }
            }
        }
    }

    /// Adds a row for thread `tid`, which holds nothing and waits for
    /// nothing.
    pub fn addthread(&mut self, tid: usize)
        requires
            old(self).wf(),
            old(self)@.threads() < isize::MAX,
        ensures
            final(self).wf(),
            final(self)@ == old(self)@.with_thread(tid),
    {
        let ghost before = self@;
        let j: usize = self.available.len();
        let held_row: Vec<usize> = vec![0usize; j];
        let need_row: Vec<usize> = vec![0usize; j];
        self.allocation.push(held_row);
        self.need.push(need_row);
        self.tid_list.push(tid);
        self.finish.push(false);
        proof {
            let after = before.with_thread(tid);
            assert(self@ =~~= after);
            let last = before.threads();
            assert forall|t: int, c: int|
                0 <= t < after.threads() && 0 <= c < after.resources() implies 0
                <= #[trigger] after.held(t, c) && 0 <= after.wanted(t, c) by {
                if t < last {
                    assert(0 <= before.held(t, c));
                    assert(0 <= before.wanted(t, c));
                }
            }
            assert forall|r: int| 0 <= r < after.resources() implies after.total_held(r)
                + after.available[r] == #[trigger] after.maximum[r] by {
                assert(after.held(last, r) == 0);
                assert forall|t: int| 0 <= t < last implies after.held(t, r) == before.held(t, r) by {}
                after.lemma_held_same(before, Set::full(), r, last);
                assert(before.total_held(r) + before.available[r] == before.maximum[r]);
            }
            assert forall|t: int| 0 <= t < after.threads() implies (#[trigger] after.allocation[t]).len()
                == after.resources() by {
                if t < last {
                    assert(before.allocation[t].len() == before.resources());
                }
            }
            assert forall|t: int| 0 <= t < after.threads() implies (#[trigger] after.need[t]).len()
                == after.resources() by {
                if t < last {
                    assert(before.need[t].len() == before.resources());
                }
            }
            assert forall|r: int| 0 <= r < after.resources() implies 0
                <= #[trigger] after.available[r] by {
                assert(0 <= before.available[r]);
            }
        }
    }

    /// Records that thread `tid` asks for one instance of `res_id`.
    pub fn request(&mut self, tid: usize, res_id: usize)
        requires
            old(self).wf(),
            old(self)@.row_of(tid) >= 0,
            res_id < old(self)@.resources(),
            old(self)@.wanted(old(self)@.row_of(tid), res_id as int) < usize::MAX,
        ensures
            final(self).wf(),
            final(self)@ == old(self)@.with_wait(old(self)@.row_of(tid), res_id as int, 1),
    {
        let ghost before = self@;
        let i: usize = self.find(tid) as usize;
        assert(before.need[i as int].len() == before.resources());
        let old_need: usize = self.need[i][res_id];
        self.need[i][res_id] = old_need + 1;
        proof {
            assert(self@ =~~= before.with_wait(i as int, res_id as int, 1));
            before.lemma_with_wait_wf(i as int, res_id as int, 1);
        }
    }

    /// Records that thread `tid` gave up asking for one instance of
    /// `res_id`.
    pub fn withdraw(&mut self, tid: usize, res_id: usize)
        requires
            old(self).wf(),
            old(self)@.row_of(tid) >= 0,
            res_id < old(self)@.resources(),
            old(self)@.wanted(old(self)@.row_of(tid), res_id as int) >= 1,
        ensures
            final(self).wf(),
            final(self)@ == old(self)@.with_wait(old(self)@.row_of(tid), res_id as int, -1),
    {
        let ghost before = self@;
        let i: usize = self.find(tid) as usize;
        assert(before.need[i as int].len() == before.resources());
        let old_need: usize = self.need[i][res_id];
        self.need[i][res_id] = old_need - 1;
        proof {
            assert(self@ =~~= before.with_wait(i as int, res_id as int, -1));
            before.lemma_with_wait_wf(i as int, res_id as int, -1);
        }
    }

    /// Grants thread `tid` one free instance of `res_id`: the instance
    /// moves from the free ones to those the thread holds, and the thread
    /// waits for `res_id` no longer.
    pub fn allocate(&mut self, tid: usize, res_id: usize)
        requires
            old(self).wf(),
            old(self)@.row_of(tid) >= 0,
            res_id < old(self)@.resources(),
            old(self)@.available[res_id as int] >= 1,
        ensures
            final(self).wf(),
            final(self)@ == old(self)@.granted(old(self)@.row_of(tid), res_id as int),
    {
        let ghost before = self@;
        let i: usize = self.find(tid) as usize;
        proof {
            assert(before.need[i as int].len() == before.resources());
            assert(before.allocation[i as int].len() == before.resources());
            assert(forall|u: int|
                0 <= u < before.threads() ==> 0 <= #[trigger] before.held(u, res_id as int));
            before.lemma_row_within_total(i as int, res_id as int);
            assert(before.total_held(res_id as int) + before.available[res_id as int]
                == before.maximum[res_id as int]);
            assert(before.maximum[res_id as int] == self.maximum@[res_id as int]);
        }
        self.need[i][res_id] = 0;
        let free: usize = self.available[res_id];
        self.available[res_id] = free - 1;
        let held: usize = self.allocation[i][res_id];
        self.allocation[i][res_id] = held + 1;
        proof {
            assert(self@ =~~= before.granted(i as int, res_id as int));
            before.lemma_granted_wf(i as int, res_id as int);
        }
    }

    /// Takes back one instance of `res_id` that thread `tid` holds.
    pub fn dealloc(&mut self, tid: usize, res_id: usize)
        requires
            old(self).wf(),
            old(self)@.row_of(tid) >= 0,
            res_id < old(self)@.resources(),
            old(self)@.held(old(self)@.row_of(tid), res_id as int) >= 1,
        ensures
            final(self).wf(),
            final(self)@ == old(self)@.released(old(self)@.row_of(tid), res_id as int),
    {
        let ghost before = self@;
        let i: usize = self.find(tid) as usize;
        proof {
            assert(before.allocation[i as int].len() == before.resources());
            assert(forall|u: int|
                0 <= u < before.threads() ==> 0 <= #[trigger] before.held(u, res_id as int));
            before.lemma_row_within_total(i as int, res_id as int);
            assert(before.total_held(res_id as int) + before.available[res_id as int]
                == before.maximum[res_id as int]);
            assert(before.maximum[res_id as int] == self.maximum@[res_id as int]);
        }
        let held: usize = self.allocation[i][res_id];
        self.allocation[i][res_id] = held - 1;
        let free: usize = self.available[res_id];
        self.available[res_id] = free + 1;
        proof {
            assert(self@ =~~= before.released(i as int, res_id as int));
            before.lemma_released_wf(i as int, res_id as int);
        }
    }

    /// Takes back everything that thread `tid` holds.
    pub fn release(&mut self, tid: usize)
        requires
            old(self).wf(),
            old(self)@.row_of(tid) >= 0,
        ensures
            final(self).wf(),
            final(self)@ == old(self)@.released_all(old(self)@.row_of(tid)),
    {
        let ghost before = self@;
        let i: usize = self.find(tid) as usize;
        let n: usize = self.available.len();
        let mut j: usize = 0;
        while j < n
            invariant
                before.wf(),
                self.wf(),
                j <= n,
                n == before.resources(),
                0 <= i < before.threads(),
                self@.tid_list == before.tid_list,
                self@.maximum == before.maximum,
                self@.finish == before.finish,
                self@.need == before.need,
                self@.available.len() == before.available.len(),
                self@.allocation.len() == before.allocation.len(),
                forall|r: int|
                    0 <= r < j ==> #[trigger] self@.available[r] == before.available[r]
                        + before.held(i as int, r),
                forall|r: int| 0 <= r < j ==> #[trigger] self@.held(i as int, r) == 0,
                forall|r: int| j <= r < n ==> #[trigger] self@.available[r] == before.available[r],
                forall|r: int|
                    j <= r < n ==> #[trigger] self@.held(i as int, r) == before.held(i as int, r),
                forall|t: int|
                    0 <= t < before.threads() && t != i ==> #[trigger] self@.allocation[t]
                        == before.allocation[t],
            decreases n - j,
        {
            let ghost prev = self@;
            proof {
                assert(prev.allocation[i as int].len() == prev.resources());
                assert(forall|u: int|
                    0 <= u < prev.threads() ==> 0 <= #[trigger] prev.held(u, j as int));
                prev.lemma_row_within_total(i as int, j as int);
                assert(prev.total_held(j as int) + prev.available[j as int] == prev.maximum[j as int]);
                assert(prev.maximum[j as int] == self.maximum@[j as int]);
            }
            let held: usize = self.allocation[i][j];
            let free: usize = self.available[j];
            self.available[j] = free + held;
            self.allocation[i][j] = 0;
            proof {
                assert(self@.need =~~= prev.need);
                assert(self@.maximum =~= prev.maximum);
                assert forall|t: int| 0 <= t < prev.threads() && t != i implies #[trigger] self@.allocation[t]
                    == prev.allocation[t] by {
                    assert(self@.allocation[t] =~= prev.allocation[t]);
                }
                assert(0 <= prev.wanted(i as int, j as int));
                assert(0 <= prev.available[j as int]);
                assert forall|r: int| 0 <= r < n && r != j implies #[trigger] self@.available[r]
                    == prev.available[r] by {}
                assert forall|r: int| 0 <= r < n && r != j implies #[trigger] self@.held(i as int, r)
                    == prev.held(i as int, r) by {}
                assert(self@.available[j as int] == prev.available[j as int] + prev.held(
                    i as int,
                    j as int,
                ));
                assert(self@.held(i as int, j as int) == 0);
                assert(self@.need[i as int] == prev.need[i as int]);
                self@.lemma_cell_wf(prev, i as int, j as int);
            }
            j = j + 1;
        }
        proof {
            let after = before.released_all(i as int);
            assert(before.allocation[i as int].len() == before.resources());
            assert(self@.allocation[i as int].len() == before.resources());
            assert(self@.allocation[i as int] =~= after.allocation[i as int]) by {
                assert forall|r: int| 0 <= r < n implies self@.allocation[i as int][r] == 0 by {
                    assert(self@.held(i as int, r) == 0);
                }
            }
            assert(self@.allocation =~= after.allocation);
            assert(self@.available =~= after.available);
            assert(self@ =~~= after);
        }
    }

    /// Runs the banker's safety check, with `finish` as its scratch space,
    /// and returns `true` exactly when the state is not safe: when no order
    /// lets every thread finish. Afterwards `finish` marks the threads
    /// that can finish. The resource only has to exist; the verdict is
    /// about the whole state.
    pub fn is_deadlocked(&mut self, res_id: usize) -> (deadlocked: bool)
        requires
            old(self).wf(),
            res_id < old(self)@.resources(),
        ensures
            final(self).wf(),
            final(self)@.same_tables(old(self)@),
            deadlocked == !old(self)@.safe(),
            deadlocked == exists|t: int|
                0 <= t < final(self)@.threads() && !#[trigger] final(self)@.finish[t],
    {
        let ghost before = self@;
        let t_n: usize = self.tid_list.len();
        let r_n: usize = self.available.len();
        let mut work: Vec<usize> = Vec::new();
        let mut r: usize = 0;
        while r < r_n
            invariant
                r <= r_n,
                r_n == self.available@.len(),
                work@.len() == r,
                forall|c: int| 0 <= c < r ==> #[trigger] work@[c] == self@.available[c],
            decreases r_n - r,
        {
            work.push(self.available[r]);
            r = r + 1;
        }
        let mut fin: Vec<bool> = Vec::new();
        let mut t: usize = 0;
        while t < t_n
            invariant
                t <= t_n,
                fin@.len() == t,
                forall|u: int| 0 <= u < t ==> !#[trigger] fin@[u],
            decreases t_n - t,
        {
            fin.push(false);
            t = t + 1;
        }
        let ghost mut done: Seq<int> = Seq::empty();
        proof {
            assert(done.to_set() =~= Set::<int>::empty());
            assert forall|c: int| 0 <= c < r_n implies #[trigger] work@[c] == self@.available[c]
                + self@.held_by(done.to_set(), c) by {
                self@.lemma_held_zero(done.to_set(), c, self@.threads());
            }
        }
        let mut stuck: bool = false;
        while !stuck
            invariant
                self@ == before,
                before.wf(),
                t_n == self@.threads(),
                r_n == self@.resources(),
                work@.len() == r_n,
                fin@.len() == t_n,
                done.no_duplicates(),
                forall|k: int| 0 <= k < done.len() ==> 0 <= #[trigger] done[k] < t_n,
                forall|u: int| 0 <= u < t_n ==> (#[trigger] fin@[u] <==> done.contains(u)),
                forall|c: int|
                    0 <= c < r_n ==> #[trigger] work@[c] == self@.available[c] + self@.held_by(
                        done.to_set(),
                        c,
                    ),
                forall|k: int|
                    0 <= k < done.len() ==> self@.can_run(#[trigger] done[k], done.take(k).to_set()),
                stuck ==> forall|u: int|
                    0 <= u < t_n ==> #[trigger] fin@[u] || !self@.can_run(u, done.to_set()),
            decreases t_n - done.len(), if stuck { 0int } else { 1int },
        {
            let ghost done_at_start = done;
            let mut progress: bool = false;
            let mut t: usize = 0;
            while t < t_n
                invariant
                    self@ == before,
                    before.wf(),
                    t <= t_n,
                    t_n == self@.threads(),
                    r_n == self@.resources(),
                    work@.len() == r_n,
                    fin@.len() == t_n,
                    done.no_duplicates(),
                    forall|k: int| 0 <= k < done.len() ==> 0 <= #[trigger] done[k] < t_n,
                    forall|u: int| 0 <= u < t_n ==> (#[trigger] fin@[u] <==> done.contains(u)),
                    forall|c: int|
                        0 <= c < r_n ==> #[trigger] work@[c] == self@.available[c] + self@.held_by(
                            done.to_set(),
                            c,
                        ),
                    forall|k: int|
                        0 <= k < done.len() ==> self@.can_run(
                            #[trigger] done[k],
                            done.take(k).to_set(),
                        ),
                    !progress ==> done == done_at_start,
                    progress ==> done.len() > done_at_start.len(),
                    !progress ==> forall|u: int|
                        0 <= u < t ==> #[trigger] fin@[u] || !self@.can_run(u, done.to_set()),
                decreases t_n - t,
            {
                if !fin[t] {
                    let mut fits: bool = true;
                    let mut c: usize = 0;
                    while c < r_n
                        invariant
                            self@ == before,
                            before.wf(),
                            c <= r_n,
                            r_n == self@.resources(),
                            t < self@.threads(),
                            work@.len() == r_n,
                            fits <==> forall|d: int|
                                0 <= d < c ==> #[trigger] self@.wanted(t as int, d) <= work@[d],
                        decreases r_n - c,
                    {
                        assert(self@.need[t as int].len() == r_n);
                        assert(self@.wanted(t as int, c as int) == self.need@[t as int]@[c as int]);
                        if self.need[t][c] > work[c] {
                            fits = false;
                        }
                        c = c + 1;
                    }
                    if fits {
                        let ghost work_before = work@;
                        let ghost rows = done.to_set();
                        let mut c: usize = 0;
                        while c < r_n
                            invariant
                                self@ == before,
                                before.wf(),
                                c <= r_n,
                                r_n == self@.resources(),
                                t < self@.threads(),
                                work@.len() == r_n,
                                work_before.len() == r_n,
                                !rows.contains(t as int),
                                forall|d: int|
                                    0 <= d < r_n ==> #[trigger] work_before[d] == self@.available[d]
                                        + self@.held_by(rows, d),
                                forall|d: int|
                                    0 <= d < c ==> #[trigger] work@[d] == self@.available[d]
                                        + self@.held_by(rows.insert(t as int), d),
                                forall|d: int| c <= d < r_n ==> #[trigger] work@[d] == work_before[d],
                            decreases r_n - c,
                        {
                            proof {
                                self@.lemma_held_insert(rows, t as int, c as int, self@.threads());
                                self@.lemma_held_monotonic(
                                    rows.insert(t as int),
                                    Set::full(),
                                    c as int,
                                    self@.threads(),
                                );
                                assert(self@.total_held(c as int) + self@.available[c as int]
                                    == self@.maximum[c as int]);
                                assert(work_before[c as int] == self@.available[c as int]
                                    + self@.held_by(rows, c as int));
                                assert(self@.allocation[t as int].len() == r_n);
                                assert(self@.held(t as int, c as int)
                                    == self.allocation@[t as int]@[c as int]);
                                assert(forall|u: int|
                                    0 <= u < self@.threads() ==> 0 <= #[trigger] self@.held(
                                        u,
                                        c as int,
                                    ));
                            }
                            let sum: usize = work[c] + self.allocation[t][c];
                            work[c] = sum;
                            c = c + 1;
                        }
                        fin[t] = true;
                        progress = true;
                        proof {
                            let grown = done.push(t as int);
                            done.lemma_push_to_set_commute(t as int);
                            assert(grown.to_set() =~= rows.insert(t as int));
                            assert(grown.no_duplicates()) by {
                                assert forall|a: int, b: int|
                                    0 <= a < grown.len() && 0 <= b < grown.len() && a
                                        != b implies grown[a] != grown[b] by {
                                    if a == done.len() {
                                        assert(done.contains(done[b]));
                                    } else if b == done.len() {
                                        assert(done.contains(done[a]));
                                    }
                                }
                            }
                            assert forall|u: int| 0 <= u < t_n implies (#[trigger] fin@[u]
                                <==> grown.contains(u)) by {
                                if u == t {
                                    assert(grown[done.len() as int] == u);
                                } else {
                                    if done.contains(u) {
                                        let k = choose|k: int| 0 <= k < done.len() && done[k] == u;
                                        assert(grown[k] == u);
                                    }
                                    if grown.contains(u) {
                                        let k = choose|k: int| 0 <= k < grown.len() && grown[k] == u;
                                        assert(done[k] == u);
                                    }
                                }
                            }
                            assert forall|k: int| 0 <= k < grown.len() implies self@.can_run(
                                #[trigger] grown[k],
                                grown.take(k).to_set(),
                            ) by {
                                if k < done.len() {
                                    assert(grown.take(k) =~= done.take(k));
                                    assert(self@.can_run(done[k], done.take(k).to_set()));
                                } else {
                                    assert(grown.take(k) =~= done);
                                    assert forall|d: int| 0 <= d < self@.resources() implies (
                                    #[trigger] self@.wanted(t as int, d)) <= self@.available[d]
                                        + self@.held_by(rows, d) by {
                                        assert(work_before[d] == self@.available[d] + self@.held_by(
                                            rows,
                                            d,
                                        ));
                                    }
                                }
                            }
                            done = grown;
                        }
                    } else {
                        proof {
                            let d = choose|d: int|
                                0 <= d < r_n && !(#[trigger] self@.wanted(t as int, d) <= work@[d]);
                            assert(!(self@.wanted(t as int, d) <= self@.available[d] + self@.held_by(
                                done.to_set(),
                                d,
                            )));
                        }
                    }
                }
                t = t + 1;
            }
            proof {
                lemma_distinct_rows(done, t_n as int);
            }
            if !progress {
                stuck = true;
            }
        }
        let mut all: bool = true;
        let mut t: usize = 0;
        while t < t_n
            invariant
                t <= t_n,
                t_n == fin@.len(),
                all <==> forall|u: int| 0 <= u < t ==> #[trigger] fin@[u],
            decreases t_n - t,
        {
            if !fin[t] {
                all = false;
            }
            t = t + 1;
        }
        proof {
            lemma_distinct_rows(done, t_n as int);
            if all {
                assert forall|u: int| 0 <= u < t_n implies done.contains(u) by {
                    assert(fin@[u]);
                }
                assert(before.safe_order(done));
            } else {
                let t0 = choose|u: int| 0 <= u < t_n && !#[trigger] fin@[u];
                assert forall|order: Seq<int>| !before.safe_order(order) by {
                    if before.safe_order(order) {
                        lemma_distinct_rows(order, t_n as int);
                        assert(order.contains(t0));
                        let k0 = choose|k: int| 0 <= k < order.len() && order[k] == t0;
                        let k = lemma_first_outside(order, done.to_set(), k0);
                        let u = order[k];
                        assert(!done.contains(u));
                        assert(order.take(k).to_set().subset_of(done.to_set())) by {
                            assert forall|x: int| order.take(k).to_set().contains(x) implies done.to_set().contains(
                                x,
                            ) by {
                                let j = choose|j: int| 0 <= j < k && order.take(k)[j] == x;
                                assert(done.to_set().contains(order[j]));
                            }
                        }
                        assert(before.can_run(u, order.take(k).to_set()));
                        assert(before.can_run(u, done.to_set())) by {
                            assert forall|c: int| 0 <= c < before.resources() implies (
                            #[trigger] before.wanted(u, c)) <= before.available[c]
                                + before.held_by(done.to_set(), c) by {
                                assert(before.wanted(u, c) <= before.available[c] + before.held_by(
                                    order.take(k).to_set(),
                                    c,
                                ));
                                assert(forall|u: int|
                                    0 <= u < before.threads() ==> 0 <= #[trigger] before.held(u, c));
                                before.lemma_held_monotonic(
                                    order.take(k).to_set(),
                                    done.to_set(),
                                    c,
                                    before.threads(),
                                );
                            }
                        }
                        assert(fin@[u] || !before.can_run(u, done.to_set()));
                    }
                }
            }
        }
        let ghost marks = fin@;
        self.finish = fin;
        proof {
            if !all {
                let t0 = choose|u: int| 0 <= u < t_n && !#[trigger] marks[u];
                assert(!self@.finish[t0]);
            }
            assert(self@.same_tables(before));
            assert forall|c: int| 0 <= c < self@.resources() implies self@.total_held(c)
                + self@.available[c] == #[trigger] self@.maximum[c] by {
                self@.lemma_held_same(before, Set::full(), c, self@.threads());
                assert(before.total_held(c) + before.available[c] == before.maximum[c]);
            }
            assert forall|t: int, c: int|
                0 <= t < self@.threads() && 0 <= c < self@.resources() implies 0
                <= #[trigger] self@.held(t, c) by {
                assert(0 <= before.held(t, c));
            }
            assert forall|t: int, c: int|
                0 <= t < self@.threads() && 0 <= c < self@.resources() implies 0
                <= #[trigger] self@.wanted(t, c) by {
                assert(0 <= before.wanted(t, c));
            }
        }
        !all
    }

    /// Takes note of one more instance of `res_id`, free from the start:
    /// the count of all instances follows what was observed.
    pub fn renew_maximum(&mut self, res_id: usize)
        requires
            old(self).wf(),
            res_id < old(self)@.resources(),
            old(self)@.maximum[res_id as int] < usize::MAX,
        ensures
            final(self).wf(),
            final(self)@ == old(self)@.with_instance(res_id as int),
    {
        let ghost before = self@;
        proof {
            assert(forall|u: int|
                0 <= u < before.threads() ==> 0 <= #[trigger] before.held(u, res_id as int));
            before.lemma_held_monotonic(Set::full(), Set::full(), res_id as int, before.threads());
            assert(before.total_held(res_id as int) + before.available[res_id as int]
                == before.maximum[res_id as int]);
        }
        let free: usize = self.available[res_id];
        self.available[res_id] = free + 1;
        let all: usize = self.maximum[res_id];
        self.maximum[res_id] = all + 1;
        proof {
            let after = before.with_instance(res_id as int);
            assert(self@ =~~= after);
            assert forall|c: int| 0 <= c < after.resources() implies after.total_held(c)
                + after.available[c] == #[trigger] after.maximum[c] by {
                after.lemma_held_same(before, Set::full(), c, after.threads());
                assert(before.total_held(c) + before.available[c] == before.maximum[c]);
            }
            assert forall|t: int, c: int|
                0 <= t < after.threads() && 0 <= c < after.resources() implies 0
                <= #[trigger] after.held(t, c) && 0 <= after.wanted(t, c) by {
                assert(0 <= before.held(t, c));
                assert(0 <= before.wanted(t, c));
            }
            assert forall|c: int| 0 <= c < after.resources() implies 0
                <= #[trigger] after.available[c] by {
                assert(0 <= before.available[c]);
            }
        }
    }

    /// Records that thread `tid` asks for one instance of `res_id`, unless
    /// the counter is at its limit.
    pub fn note_request(&mut self, tid: usize, res_id: usize)
        requires
            old(self).wf(),
            old(self)@.row_of(tid) >= 0,
            res_id < old(self)@.resources(),
        ensures
            final(self).wf(),
            final(self)@ == old(self)@.note_request(old(self)@.row_of(tid), res_id as int),
    {
        let i: usize = self.find(tid) as usize;
        assert(self@.need[i as int].len() == self@.resources());
        if self.need[i][res_id] < usize::MAX {
            self.request(tid, res_id);
        }
    }

    /// Records that thread `tid` gave up asking for one instance of
    /// `res_id`, where it asked for one.
    pub fn note_withdraw(&mut self, tid: usize, res_id: usize)
        requires
            old(self).wf(),
            old(self)@.row_of(tid) >= 0,
            res_id < old(self)@.resources(),
        ensures
            final(self).wf(),
            final(self)@ == old(self)@.note_withdraw(old(self)@.row_of(tid), res_id as int),
    {
        let i: usize = self.find(tid) as usize;
        assert(self@.need[i as int].len() == self@.resources());
        if self.need[i][res_id] >= 1 {
            self.withdraw(tid, res_id);
        }
    }

    /// Records that thread `tid` took an instance of `res_id`, taking note
    /// of one more instance first where none was free.
    pub fn note_grant(&mut self, tid: usize, res_id: usize)
        requires
            old(self).wf(),
            old(self)@.row_of(tid) >= 0,
            res_id < old(self)@.resources(),
        ensures
            final(self).wf(),
            final(self)@ == old(self)@.note_grant(old(self)@.row_of(tid), res_id as int),
    {
        let ghost before = self@;
        if self.available[res_id] >= 1 {
            self.allocate(tid, res_id);
        } else if self.maximum[res_id] < usize::MAX {
            self.renew_maximum(res_id);
            self.allocate(tid, res_id);
        }
    }

    /// Records that thread `tid` gave back an instance of `res_id`, taking
    /// note of one more instance instead where it held none.
    pub fn note_release(&mut self, tid: usize, res_id: usize)
        requires
            old(self).wf(),
            old(self)@.row_of(tid) >= 0,
            res_id < old(self)@.resources(),
        ensures
            final(self).wf(),
            final(self)@ == old(self)@.note_release(old(self)@.row_of(tid), res_id as int),
    {
        let i: usize = self.find(tid) as usize;
        assert(self@.allocation[i as int].len() == self@.resources());
        if self.allocation[i][res_id] >= 1 {
            self.dealloc(tid, res_id);
        } else if self.maximum[res_id] < usize::MAX {
            self.renew_maximum(res_id);
        }
    }
}

} // verus!
