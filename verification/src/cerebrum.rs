//! The cerebrum: a sparse connection matrix in compressed-row form, the
//! wake/sleep cycle that paces it, and the rebuild that keeps the matrix in
//! step with the cortex's live nodes.

pub mod runner;

use crate::cortex::NodeArena;
use vstd::prelude::*;

verus! {

/// Whether the cerebrum is awake or consolidating in sleep.
#[derive(Debug, Clone, Copy, PartialEq, Eq, Structural)]
pub enum CerebrumState {
    Wake,
    Sleep,
}

/// A sparse matrix in compressed-row form: the entries of row `i` sit at
/// positions `row_ptr[i] .. row_ptr[i + 1]` of `col_indices` and `values`.
pub struct CsrMatrix<V> {
    pub nrows: usize,
    pub ncols: usize,
    pub row_ptr: Vec<usize>,
    pub col_indices: Vec<usize>,
    pub values: Vec<V>,
}

/// The (column, value) pairs stored at positions `a .. b` (none when `b <= a`).
pub open spec fn entries_between<V>(cols: Seq<usize>, vals: Seq<V>, a: int, b: int) -> Seq<(usize, V)> {
    Seq::new(if a < b { (b - a) as nat } else { 0 }, |t: int| (cols[a + t], vals[a + t]))
}

impl<V> CsrMatrix<V> {
    /// The shape that construction checks: one row pointer per row plus one,
    /// and as many values as column indices.
    pub open spec fn shape_ok(&self) -> bool {
        &&& self.row_ptr@.len() == self.nrows + 1
        &&& self.col_indices@.len() == self.values@.len()
    }

    /// The entries of row `i`.
    pub open spec fn row_entries(&self, i: int) -> Seq<(usize, V)> {
        entries_between(self.col_indices@, self.values@, self.row_ptr@[i] as int, self.row_ptr@[i + 1] as int)
    }

    /// A fully compressed-row matrix: row pointers start at 0, never decrease,
    /// end at the number of entries, and every column index is in range.
    pub open spec fn is_compressed(&self) -> bool {
        &&& self.shape_ok()
        &&& self.row_ptr@[0] == 0
        &&& forall|a: int, b: int| 0 <= a <= b <= self.nrows ==> self.row_ptr@[a] <= self.row_ptr@[b]
        &&& self.row_ptr@[self.nrows as int] == self.col_indices@.len()
        &&& forall|k: int| 0 <= k < self.col_indices@.len() ==> #[trigger] self.col_indices@[k] < self.ncols
    }

    /// Builds a matrix from its parts.
    pub fn new(nrows: usize, ncols: usize, row_ptr: Vec<usize>, col_indices: Vec<usize>, values: Vec<V>) -> (m: Self)
        requires
            row_ptr@.len() == nrows + 1,
            col_indices@.len() == values@.len(),
        ensures
            m.nrows == nrows,
            m.ncols == ncols,
            m.row_ptr@ == row_ptr@,
            m.col_indices@ == col_indices@,
            m.values@ == values@,
            m.shape_ok(),
    {
        CsrMatrix { nrows, ncols, row_ptr, col_indices, values }
    }
}

/// The entries of `s` whose column is live, in their order.
pub open spec fn keep_live<V>(s: Seq<(usize, V)>, live: Set<usize>) -> Seq<(usize, V)>
    decreases s.len(),
{
    if s.len() == 0 {
        Seq::empty()
    } else {
        let rest = keep_live(s.drop_last(), live);
        if live.contains(s.last().0) {
            rest.push(s.last())
        } else {
            rest
        }
    }
}

/// Some entry of `s` sits in column `c`.
pub open spec fn has_col<V>(s: Seq<(usize, V)>, c: usize) -> bool {
    exists|t: int| 0 <= t < s.len() && #[trigger] s[t].0 == c
}

/// Row `i` after a rebuild against the live node identifiers `live`: a dead
/// row is empty; a live row keeps its old entries whose columns are live, in
/// order, and gains a self-connection of weight `w` when it has none.
pub open spec fn rebuilt_row<V>(old: CsrMatrix<V>, live: Set<usize>, w: V, i: usize) -> Seq<(usize, V)> {
    if live.contains(i) {
        let kept = if i < old.nrows { keep_live(old.row_entries(i as int), live) } else { Seq::empty() };
        if has_col(kept, i) { kept } else { kept.push((i, w)) }
    } else {
        Seq::empty()
    }
}

impl<V> CsrMatrix<V> {
    /// The rebuild reads the old rows of live nodes without going out of
    /// bounds, and no such row holds more than 100 000 entries.
    pub open spec fn rebuild_ready(&self, live: Set<usize>) -> bool {
        &&& self.shape_ok()
        &&& forall|i: usize|
            #![trigger live.contains(i)]
            live.contains(i) && i < self.nrows && self.row_ptr@[i as int] < self.row_ptr@[i + 1] ==> {
                &&& self.row_ptr@[i + 1] <= self.col_indices@.len()
                &&& self.row_ptr@[i + 1] - self.row_ptr@[i as int] <= 100_000
            }
    }
}

/// The entries of row `r` while rows are still being appended: a row ends
/// where the next one starts, and the last row so far ends at the last entry.
spec fn built_row<V>(rp: Seq<usize>, cols: Seq<usize>, vals: Seq<V>, r: int) -> Seq<(usize, V)> {
    entries_between(cols, vals, rp[r] as int, if r + 1 < rp.len() { rp[r + 1] as int } else { cols.len() as int })
}

proof fn lemma_entries_between_push<V>(cols: Seq<usize>, vals: Seq<V>, c: usize, v: V, a: int, b: int)
    requires
        0 <= a,
        b <= cols.len(),
        cols.len() == vals.len(),
    ensures
        entries_between(cols.push(c), vals.push(v), a, b) == entries_between(cols, vals, a, b),
        a <= cols.len() ==> entries_between(cols.push(c), vals.push(v), a, cols.len() + 1int)
            == entries_between(cols, vals, a, cols.len() as int).push((c, v)),
{
    assert(entries_between(cols.push(c), vals.push(v), a, b) =~= entries_between(cols, vals, a, b));
    if a <= cols.len() {
        assert(entries_between(cols.push(c), vals.push(v), a, cols.len() + 1int)
            =~= entries_between(cols, vals, a, cols.len() as int).push((c, v)));
    }
}

/// After a rebuild every live node is connected to itself, a dead node has
/// no connections, and every connection leads to a live node.
pub proof fn lemma_rebuilt_row_shape<V>(old: CsrMatrix<V>, live: Set<usize>, w: V, i: usize)
    ensures
        live.contains(i) ==> has_col(rebuilt_row(old, live, w, i), i),
        !live.contains(i) ==> rebuilt_row(old, live, w, i).len() == 0,
        forall|t: int|
            0 <= t < rebuilt_row(old, live, w, i).len() ==> live.contains(#[trigger] rebuilt_row(old, live, w, i)[t].0),
{
    if live.contains(i) {
        let kept = if i < old.nrows { keep_live(old.row_entries(i as int), live) } else { Seq::empty() };
        lemma_keep_live_columns(if i < old.nrows { old.row_entries(i as int) } else { Seq::empty() }, live);
        if !has_col(kept, i) {
            assert(kept.push((i, w))[kept.len() as int].0 == i);
        }
    }
}

/// Whether an entry sits in a live column.
pub open spec fn in_live_col<V>(live: Set<usize>) -> spec_fn((usize, V)) -> bool {
    |e: (usize, V)| live.contains(e.0)
}

/// `keep_live` is the standard filter on live columns.
proof fn lemma_keep_live_is_filter<V>(s: Seq<(usize, V)>, live: Set<usize>)
    ensures
        keep_live(s, live) == s.filter(in_live_col::<V>(live)),
    decreases s.len(),
{
    reveal(Seq::filter);
    if s.len() > 0 {
        lemma_keep_live_is_filter(s.drop_last(), live);
    }
}

/// The entries of old row `i` whose columns are live, in their order, by the
/// standard filter (none when the old matrix has no such row).
pub open spec fn live_entries_of<V>(old: CsrMatrix<V>, live: Set<usize>, i: usize) -> Seq<(usize, V)> {
    if i < old.nrows {
        old.row_entries(i as int).filter(in_live_col::<V>(live))
    } else {
        Seq::empty()
    }
}

/// How a rebuild treats the row of a live node: the old row's entries whose
/// columns are live stay at the front of the row, in their order; after them
/// comes one self-connection of weight `w` exactly when none of them already
/// connects the node to itself, wherever in the row that one stands; nothing
/// else is added. So a row that keeps a self-connection gains no second one.
pub proof fn lemma_rebuilt_live_row<V>(old: CsrMatrix<V>, live: Set<usize>, w: V, i: usize)
    requires
        live.contains(i),
    ensures
        ({
            let kept = live_entries_of(old, live, i);
            let row = rebuilt_row(old, live, w, i);
            let connected = exists|t: int| 0 <= t < kept.len() && (#[trigger] kept[t]).0 == i;
            &&& row.subrange(0, kept.len() as int) == kept
            &&& row.len() == kept.len() + (if connected { 0int } else { 1int })
            &&& !connected ==> row[kept.len() as int] == (i, w)
        }),
{
    let kf = live_entries_of(old, live, i);
    let kept = if i < old.nrows { keep_live(old.row_entries(i as int), live) } else { Seq::empty() };
    if i < old.nrows {
        lemma_keep_live_is_filter(old.row_entries(i as int), live);
    }
    assert(kf == kept);
    let row = rebuilt_row(old, live, w, i);
    let connected = exists|t: int| 0 <= t < kf.len() && (#[trigger] kf[t]).0 == i;
    assert(connected == has_col(kept, i)) by {
        if connected {
            let t = choose|t: int| 0 <= t < kf.len() && (#[trigger] kf[t]).0 == i;
            assert(kept[t].0 == i);
        }
        if has_col(kept, i) {
            let t = choose|t: int| 0 <= t < kept.len() && #[trigger] kept[t].0 == i;
            assert(kf[t].0 == i);
        }
    }
    if connected {
        assert(row == kept);
        assert(row.subrange(0, kf.len() as int) =~= kf);
        assert(row.len() == kf.len() + 0int);
    } else {
        assert(row == kept.push((i, w)));
        assert(row.subrange(0, kf.len() as int) =~= kf);
        assert(row.len() == kf.len() + 1int);
        assert(row[kf.len() as int] == (i, w));
    }
    assert(row.len() == kf.len() + (if connected { 0int } else { 1int }));
}

/// The entries kept by `keep_live` sit in live columns.
proof fn lemma_keep_live_columns<V>(s: Seq<(usize, V)>, live: Set<usize>)
    ensures
        forall|t: int| 0 <= t < keep_live(s, live).len() ==> live.contains(#[trigger] keep_live(s, live)[t].0),
    decreases s.len(),
{
    if s.len() > 0 {
        lemma_keep_live_columns(s.drop_last(), live);
        let rest = keep_live(s.drop_last(), live);
        if live.contains(s.last().0) {
            assert forall|t: int| 0 <= t < keep_live(s, live).len() implies live.contains(#[trigger] keep_live(s, live)[t].0) by {
                if t < rest.len() {
                    assert(keep_live(s, live)[t] == rest[t]);
                }
            }
        }
    }
}

/// The cerebrum: its wake/sleep state, the cycle counter of that state, the
/// length of each phase in cycles, and its connection matrix.
pub struct Cerebrum<V> {
    pub state: CerebrumState,
    pub cycle_count: usize,
    pub wake_cycle_limit: usize,
    pub sleep_cycle_limit: usize,
    pub matrix: CsrMatrix<V>,
}

/// The state and counter after one cycle: the counter advances, and once it
/// reaches the current phase's length the phase flips and the counter restarts.
pub open spec fn next_phase(state: CerebrumState, count: nat, wake_limit: nat, sleep_limit: nat) -> (CerebrumState, nat) {
    let c = count + 1;
    match state {
        CerebrumState::Wake => if c >= wake_limit { (CerebrumState::Sleep, 0) } else { (CerebrumState::Wake, c) },
        CerebrumState::Sleep => if c >= sleep_limit { (CerebrumState::Wake, 0) } else { (CerebrumState::Sleep, c) },
    }
}

/// The state and counter after `n` cycles.
pub open spec fn phase_after(state: CerebrumState, count: nat, wake_limit: nat, sleep_limit: nat, n: nat) -> (CerebrumState, nat)
    decreases n,
{
    if n == 0 {
        (state, count)
    } else {
        let s = next_phase(state, count, wake_limit, sleep_limit);
        phase_after(s.0, s.1, wake_limit, sleep_limit, (n - 1) as nat)
    }
}

/// Counting within a phase: while the counter stays below the phase's
/// length, each cycle adds one and the state holds.
proof fn lemma_phase_counts_up(state: CerebrumState, count: nat, w: nat, s: nat, n: nat)
    requires
        state == CerebrumState::Wake ==> count + n < w,
        state == CerebrumState::Sleep ==> count + n < s,
    ensures
        phase_after(state, count, w, s, n) == (state, count + n),
    decreases n,
{
    if n > 0 {
        lemma_phase_counts_up(state, count + 1, w, s, (n - 1) as nat);
    }
}

/// Splitting a run of cycles: `a` cycles then `b` cycles are `a + b` cycles.
proof fn lemma_phase_after_add(state: CerebrumState, count: nat, w: nat, s: nat, a: nat, b: nat)
    ensures
        ({
            let mid = phase_after(state, count, w, s, a);
            phase_after(mid.0, mid.1, w, s, b) == phase_after(state, count, w, s, a + b)
        }),
    decreases a,
{
    if a > 0 {
        let nx = next_phase(state, count, w, s);
        lemma_phase_after_add(nx.0, nx.1, w, s, (a - 1) as nat, b);
        assert((a - 1) as nat + b == (a + b - 1) as nat);
    }
}

/// The wake phase lasts exactly its length: starting awake at cycle 0, the
/// cerebrum is awake at cycle `n` for every `n` below the wake length, and
/// asleep at cycle 0 once that many cycles have passed.
pub proof fn lemma_wake_phase_length(wake_limit: nat, sleep_limit: nat)
    requires
        wake_limit >= 1,
    ensures
        forall|n: nat| n < wake_limit ==> #[trigger] phase_after(CerebrumState::Wake, 0, wake_limit, sleep_limit, n) == (CerebrumState::Wake, n),
        phase_after(CerebrumState::Wake, 0, wake_limit, sleep_limit, wake_limit) == (CerebrumState::Sleep, 0nat),
{
    assert forall|n: nat| n < wake_limit implies #[trigger] phase_after(CerebrumState::Wake, 0, wake_limit, sleep_limit, n) == (CerebrumState::Wake, n) by {
        lemma_phase_counts_up(CerebrumState::Wake, 0, wake_limit, sleep_limit, n);
    }
    let k = (wake_limit - 1) as nat;
    lemma_phase_counts_up(CerebrumState::Wake, 0, wake_limit, sleep_limit, k);
    lemma_phase_after_add(CerebrumState::Wake, 0, wake_limit, sleep_limit, k, 1);
    assert(phase_after(CerebrumState::Sleep, 0, wake_limit, sleep_limit, 0) == (CerebrumState::Sleep, 0nat));
    assert(phase_after(CerebrumState::Wake, k, wake_limit, sleep_limit, 1) == (CerebrumState::Sleep, 0nat));
}

/// The sleep phase lasts exactly its length, in the same way.
pub proof fn lemma_sleep_phase_length(wake_limit: nat, sleep_limit: nat)
    requires
        sleep_limit >= 1,
    ensures
        forall|n: nat| n < sleep_limit ==> #[trigger] phase_after(CerebrumState::Sleep, 0, wake_limit, sleep_limit, n) == (CerebrumState::Sleep, n),
        phase_after(CerebrumState::Sleep, 0, wake_limit, sleep_limit, sleep_limit) == (CerebrumState::Wake, 0nat),
{
    assert forall|n: nat| n < sleep_limit implies #[trigger] phase_after(CerebrumState::Sleep, 0, wake_limit, sleep_limit, n) == (CerebrumState::Sleep, n) by {
        lemma_phase_counts_up(CerebrumState::Sleep, 0, wake_limit, sleep_limit, n);
    }
    let k = (sleep_limit - 1) as nat;
    lemma_phase_counts_up(CerebrumState::Sleep, 0, wake_limit, sleep_limit, k);
    lemma_phase_after_add(CerebrumState::Sleep, 0, wake_limit, sleep_limit, k, 1);
    assert(phase_after(CerebrumState::Wake, 0, wake_limit, sleep_limit, 0) == (CerebrumState::Wake, 0nat));
    assert(phase_after(CerebrumState::Sleep, k, wake_limit, sleep_limit, 1) == (CerebrumState::Wake, 0nat));
}

/// The cycle is periodic: a full wake phase followed by a full sleep phase
/// brings the cerebrum back to waking at cycle 0.
pub proof fn lemma_wake_sleep_period(wake_limit: nat, sleep_limit: nat)
    requires
        wake_limit >= 1,
        sleep_limit >= 1,
    ensures
        phase_after(CerebrumState::Wake, 0, wake_limit, sleep_limit, wake_limit + sleep_limit) == (CerebrumState::Wake, 0nat),
{
    lemma_wake_phase_length(wake_limit, sleep_limit);
    lemma_sleep_phase_length(wake_limit, sleep_limit);
    lemma_phase_after_add(CerebrumState::Wake, 0, wake_limit, sleep_limit, wake_limit, sleep_limit);
}

/// The counter never reaches the length of the phase it counts: if it is
/// below that length before a cycle, it is below the new phase's length after.
pub proof fn lemma_counter_stays_in_phase(state: CerebrumState, count: nat, wake_limit: nat, sleep_limit: nat)
    requires
        wake_limit >= 1,
        sleep_limit >= 1,
        state == CerebrumState::Wake ==> count < wake_limit,
        state == CerebrumState::Sleep ==> count < sleep_limit,
    ensures
        ({
            let nx = next_phase(state, count, wake_limit, sleep_limit);
            &&& nx.0 == CerebrumState::Wake ==> nx.1 < wake_limit
            &&& nx.0 == CerebrumState::Sleep ==> nx.1 < sleep_limit
        }),
{
}

impl<V> Cerebrum<V> {
    /// A cerebrum that starts awake at cycle 0, with a wake phase of 10
    /// cycles and a sleep phase of 5.
    pub fn new(matrix: CsrMatrix<V>) -> (c: Self)
        requires
            matrix.nrows > 0,
        ensures
            c.state == CerebrumState::Wake,
            c.cycle_count == 0,
            c.wake_cycle_limit == 10,
            c.sleep_cycle_limit == 5,
            c.matrix == matrix,
    {
        Cerebrum { state: CerebrumState::Wake, cycle_count: 0, wake_cycle_limit: 10, sleep_cycle_limit: 5, matrix }
    }

    /// Rebuilds the matrix for the cortex's live nodes, whose identifiers
    /// are the keys of `arena`: the result is square with one row per
    /// identifier up to the largest live one, and each row is
    /// `rebuilt_row` of the old matrix.
    pub fn rebuild_matrix<N>(&mut self, arena: &NodeArena<N>, self_weight: V) where V: Copy
        requires
            arena.wf(),
            arena@.len() < 100_000,
            forall|k: usize| #[trigger] arena@.contains_key(k) ==> k < 100_000,
            old(self).matrix.rebuild_ready(arena@.dom()),
        ensures
            final(self).matrix.is_compressed(),
            final(self).matrix.ncols == final(self).matrix.nrows,
            forall|k: usize| #[trigger] arena@.contains_key(k) ==> k < final(self).matrix.nrows,
            arena@.len() == 0 ==> final(self).matrix.nrows == 1,
            arena@.len() > 0 ==> arena@.contains_key((final(self).matrix.nrows - 1) as usize),
            forall|i: int| 0 <= i < final(self).matrix.nrows ==> #[trigger] final(self).matrix.row_entries(i)
                == rebuilt_row(old(self).matrix, arena@.dom(), self_weight, i as usize),
            final(self).state == old(self).state,
            final(self).cycle_count == old(self).cycle_count,
            final(self).wake_cycle_limit == old(self).wake_cycle_limit,
            final(self).sleep_cycle_limit == old(self).sleep_cycle_limit,
    {
        let ghost live_set = arena@.dom();
        let ghost old_m = self.matrix;
        let ids = arena.ids();
        let max_id = if ids.len() == 0 { 0 } else { ids[ids.len() - 1] };
        proof {
            if ids.len() > 0 {
                assert(ids@.contains(max_id));
                assert forall|k: usize| #[trigger] arena@.contains_key(k) implies k <= max_id by {
                    assert(ids@.contains(k));
                    let t = choose|t: int| 0 <= t < ids@.len() && ids@[t] == k;
                    if t < ids@.len() - 1 {
                        assert(ids@[t] < ids@[ids@.len() - 1]);
                    }
                }
                assert(arena@.len() > 0);
            } else {
                assert forall|k: usize| !(#[trigger] arena@.contains_key(k)) by {
                    if arena@.contains_key(k) {
                        assert(ids@.contains(k));
                    }
                }
                assert(arena@.dom() =~= Set::empty());
            }
        }
        let n = max_id + 1;
        let mut live: Vec<bool> = Vec::new();
        let mut t: usize = 0;
        while t < n
            invariant
                t <= n,
                live@.len() == t,
                forall|j: int| 0 <= j < t ==> !live@[j],
            decreases n - t,
        {
            live.push(false);
            t = t + 1;
        }
        let mut q: usize = 0;
        while q < ids.len()
            invariant
                live@.len() == n,
                q <= ids.len(),
                forall|k: usize| #[trigger] arena@.contains_key(k) ==> k < n,
                forall|k: usize| #[trigger] ids@.contains(k) <==> arena@.contains_key(k),
                forall|j: int|
                    0 <= j < n ==> (#[trigger] live@[j] <==> (exists|u: int| 0 <= u < q && ids@[u] == j)),
            decreases ids.len() - q,
        {
            let id = ids[q];
            assert(ids@.contains(id));
            live.set(id, true);
            q = q + 1;
        }
        proof {
            assert forall|j: int| 0 <= j < n implies (#[trigger] live@[j] <==> live_set.contains(j as usize)) by {
                if live@[j] {
                    let u = choose|u: int| 0 <= u < q && ids@[u] == j;
                    assert(ids@.contains(j as usize));
                }
                if live_set.contains(j as usize) {
                    assert(ids@.contains(j as usize));
                    let u = choose|u: int| 0 <= u < ids@.len() && ids@[u] == j as usize;
                    assert(ids@[u] == j);
                }
            }
        }
        let mut row_ptr: Vec<usize> = Vec::new();
        let mut cols: Vec<usize> = Vec::new();
        let mut vals: Vec<V> = Vec::new();
        let mut i: usize = 0;
        while i < n
            invariant
                self.matrix == old_m,
                old_m.rebuild_ready(live_set),
                n <= 100_000,
                i <= n,
                live@.len() == n,
                forall|j: int| 0 <= j < n ==> (#[trigger] live@[j] <==> live_set.contains(j as usize)),
                forall|k: usize| #[trigger] live_set.contains(k) ==> k < n,
                row_ptr@.len() == i,
                cols@.len() == vals@.len(),
                i > 0 ==> row_ptr@[0] == 0,
                i == 0 ==> cols@.len() == 0,
                forall|a: int, b: int| 0 <= a <= b < i ==> row_ptr@[a] <= row_ptr@[b],
                forall|a: int| 0 <= a < i ==> #[trigger] row_ptr@[a] <= cols@.len(),
                forall|k: int| 0 <= k < cols@.len() ==> #[trigger] cols@[k] < n,
                forall|r: int|
                    0 <= r < i ==> #[trigger] built_row(row_ptr@, cols@, vals@, r)
                        == rebuilt_row(old_m, live_set, self_weight, r as usize),
            decreases n - i,
        {
            let ghost cols_before = cols@;
            let ghost vals_before = vals@;
            let ghost rp_before = row_ptr@;
            let row_start = cols.len();
            row_ptr.push(row_start);
            proof {
                assert forall|r: int| 0 <= r < i + 1 implies #[trigger] built_row(row_ptr@, cols@, vals@, r)
                    == (if r < i { rebuilt_row(old_m, live_set, self_weight, r as usize) } else { Seq::empty() }) by {
                    if r < i {
                        assert(row_ptr@[r] == rp_before[r]);
                        if r + 1 < i {
                            assert(row_ptr@[r + 1] == rp_before[r + 1]);
                        } else {
                            assert(row_ptr@[r + 1] == cols@.len());
                        }
                        assert(built_row(row_ptr@, cols@, vals@, r) == built_row(rp_before, cols@, vals@, r));
                    } else {
                        assert(row_ptr@[r] == row_start);
                        assert(built_row(row_ptr@, cols@, vals@, r) =~= Seq::<(usize, V)>::empty());
                    }
                }
            }
            if live[i] {
                let mut added_self = false;
                let ghost kept_prefix: Seq<(usize, V)> = Seq::empty();
                if i < self.matrix.nrows {
                    let start = self.matrix.row_ptr[i];
                    let end = self.matrix.row_ptr[i + 1];
                    let ghost old_row = old_m.row_entries(i as int);
                    let mut k = start;
                    while k < end
                        invariant
                            self.matrix == old_m,
                            old_m.rebuild_ready(live_set),
                            live_set.contains(i as usize),
                            i < old_m.nrows,
                            start == old_m.row_ptr@[i as int],
                            end == old_m.row_ptr@[i + 1],
                            old_row == old_m.row_entries(i as int),
                            start <= k,
                            k <= end || start >= end,
                            start >= end ==> k == start,
                            start < end ==> end <= old_m.col_indices@.len(),
                            live@.len() == n,
                            forall|j: int| 0 <= j < n ==> (#[trigger] live@[j] <==> live_set.contains(j as usize)),
                            forall|kk: usize| #[trigger] live_set.contains(kk) ==> kk < n,
                            row_ptr@.len() == i + 1,
                            row_ptr@[i as int] == row_start,
                            row_start <= cols@.len(),
                            cols@.len() == vals@.len(),
                            cols@.subrange(0, row_start as int) == cols_before,
                            vals@.subrange(0, row_start as int) == vals_before,
                            cols_before.len() == row_start,
                            forall|kk: int| 0 <= kk < cols@.len() ==> #[trigger] cols@[kk] < n,
                            entries_between(cols@, vals@, row_start as int, cols@.len() as int)
                                == keep_live(old_row.take(k - start), live_set),
                            added_self == has_col(keep_live(old_row.take(k - start), live_set), i),
                        decreases end - k,
                    {
                        let j = self.matrix.col_indices[k];
                        let ghost before = keep_live(old_row.take(k - start), live_set);
                        proof {
                            assert(old_row.take(k - start + 1).drop_last() =~= old_row.take(k - start));
                            assert(old_row[k - start] == (old_m.col_indices@[k as int], old_m.values@[k as int]));
                        }
                        if j < n && live[j] {
                            let v = self.matrix.values[k];
                            proof {
                                lemma_entries_between_push(cols@, vals@, j, v, row_start as int, row_start as int);
                            }
                            cols.push(j);
                            vals.push(v);
                            if j == i {
                                added_self = true;
                            }
                            proof {
                                let after = keep_live(old_row.take(k - start + 1), live_set);
                                assert(after == before.push((j, v)));
                                assert(cols@.subrange(0, row_start as int) =~= cols_before);
                                assert(vals@.subrange(0, row_start as int) =~= vals_before);
                                if has_col(after, i) && !has_col(before, i) {
                                    let t = choose|t: int| 0 <= t < after.len() && #[trigger] after[t].0 == i;
                                    if t < before.len() {
                                        assert(before[t].0 == i);
                                    }
                                }
                                if has_col(before, i) {
                                    let t = choose|t: int| 0 <= t < before.len() && #[trigger] before[t].0 == i;
                                    assert(after[t].0 == i);
                                }
                                if j == i {
                                    assert(after[before.len() as int].0 == i);
                                }
                            }
                        } else {
                            proof {
                                if j < n {
                                    assert(!live_set.contains(j));
                                } else {
                                    assert(!live_set.contains(j));
                                }
                                assert(keep_live(old_row.take(k - start + 1), live_set) == before);
                            }
                        }
                        k = k + 1;
                    }
                    proof {
                        if start < end {
                            assert(old_row.len() == end - start);
                            assert(k == end);
                            assert(old_row.take(k - start) =~= old_row);
                        } else {
                            assert(old_row.len() == 0);
                            assert(old_row.take(k - start) =~= old_row);
                        }
                        kept_prefix = old_row;
                    }
                }
                let ghost kept = keep_live(kept_prefix, live_set);
                proof {
                    if i >= old_m.nrows {
                        assert(kept_prefix.len() == 0);
                        assert(entries_between(cols@, vals@, row_start as int, cols@.len() as int) =~= kept);
                        assert(!has_col(kept, i));
                    }
                }
                if !added_self {
                    proof {
                        lemma_entries_between_push(cols@, vals@, i, self_weight, row_start as int, row_start as int);
                    }
                    cols.push(i);
                    vals.push(self_weight);
                }
                proof {
                    assert(entries_between(cols@, vals@, row_start as int, cols@.len() as int)
                        == rebuilt_row(old_m, live_set, self_weight, i));
                    assert(cols@.subrange(0, row_start as int) =~= cols_before);
                    assert(vals@.subrange(0, row_start as int) =~= vals_before);
                }
            } else {
                proof {
                    assert(!live_set.contains(i));
                    assert(entries_between(cols@, vals@, row_start as int, cols@.len() as int) =~= Seq::<(usize, V)>::empty());
                    assert(cols@.subrange(0, row_start as int) =~= cols_before);
                    assert(vals@.subrange(0, row_start as int) =~= vals_before);
                }
            }
            proof {
                assert forall|r: int| 0 <= r < i + 1 implies #[trigger] built_row(row_ptr@, cols@, vals@, r)
                    == rebuilt_row(old_m, live_set, self_weight, r as usize) by {
                    if r < i {
                        let b = if r + 1 < i { rp_before[r + 1] as int } else { row_start as int };
                        assert(row_ptr@[r] == rp_before[r]);
                        assert(row_ptr@[r + 1] == b);
                        assert(b <= row_start);
                        assert forall|x: int| 0 <= x < row_start implies cols@[x] == cols_before[x] && vals@[x] == vals_before[x] by {
                            assert(cols@.subrange(0, row_start as int)[x] == cols@[x]);
                            assert(vals@.subrange(0, row_start as int)[x] == vals@[x]);
                        }
                        assert(entries_between(cols@, vals@, rp_before[r] as int, b)
                            =~= entries_between(cols_before, vals_before, rp_before[r] as int, b));
                        assert(built_row(rp_before, cols_before, vals_before, r) == entries_between(cols_before, vals_before, rp_before[r] as int, b));
                    } else {
                        assert(row_ptr@[r] == row_start);
                    }
                }
            }
            i = i + 1;
        }
        let nnz = cols.len();
        let ghost rp_loop = row_ptr@;
        row_ptr.push(nnz);
        proof {
            assert forall|r: int| 0 <= r < n implies #[trigger] entries_between(
                cols@, vals@, row_ptr@[r] as int, row_ptr@[r + 1] as int,
            ) == rebuilt_row(old_m, live_set, self_weight, r as usize) by {
                assert(built_row(rp_loop, cols@, vals@, r) == rebuilt_row(old_m, live_set, self_weight, r as usize));
                assert(row_ptr@[r] == rp_loop[r]);
                if r + 1 < n {
                    assert(row_ptr@[r + 1] == rp_loop[r + 1]);
                } else {
                    assert(row_ptr@[r + 1] == cols@.len());
                }
            }
        }
        self.matrix = CsrMatrix::new(n, n, row_ptr, cols, vals);
    }

    /// Advances one cycle and switches phase when the current phase has run
    /// its length.
    pub fn tick(&mut self)
        requires
            old(self).cycle_count < usize::MAX,
            old(self).wake_cycle_limit > 0 || old(self).sleep_cycle_limit > 0,
        ensures
            (final(self).state, final(self).cycle_count as nat) == next_phase(
                old(self).state,
                old(self).cycle_count as nat,
                old(self).wake_cycle_limit as nat,
                old(self).sleep_cycle_limit as nat,
            ),
            final(self).wake_cycle_limit == old(self).wake_cycle_limit,
            final(self).sleep_cycle_limit == old(self).sleep_cycle_limit,
            final(self).matrix == old(self).matrix,
    {
        self.cycle_count = self.cycle_count + 1;
        match self.state {
            CerebrumState::Wake => {
                if self.cycle_count >= self.wake_cycle_limit {
                    self.state = CerebrumState::Sleep;
                    self.cycle_count = 0;
                }
            },
            CerebrumState::Sleep => {
                if self.cycle_count >= self.sleep_cycle_limit {
                    self.state = CerebrumState::Wake;
                    self.cycle_count = 0;
                }
            },
        }
    }
}

/// Marks `value` as read, so that the load of it is not optimised away.
/// Calls `std::hint::black_box`, which returns its argument unchanged and
/// only hides it from the optimiser; nothing is stated of it.
#[verifier::external_body]
fn touch<T>(value: &T) {
    std::hint::black_box(value);
}

/// Warms the processor cache with the rows that are expected to fire next.
pub struct CsrCache;

impl CsrCache {
    /// Reads the column indices and values of each predicted row that exists
    /// in `matrix`, so that they are cached before the next product. Rows at or
    /// past `matrix.nrows` are skipped; nothing is changed.
    pub fn prefetch_lines<V>(matrix: &CsrMatrix<V>, predicted_row_ids: &[usize])
        requires
            matrix.nrows > 0,
            predicted_row_ids@.len() <= 100_000,
            forall|t: int|
                0 <= t < predicted_row_ids@.len() && #[trigger] predicted_row_ids@[t] < matrix.nrows ==> {
                    let r = predicted_row_ids@[t] as int;
                    &&& r + 1 < matrix.row_ptr@.len()
                    &&& matrix.row_ptr@[r] < matrix.row_ptr@[r + 1] ==> matrix.row_ptr@[r + 1] - matrix.row_ptr@[r] <= 100_000
                },
    {
        let mut t: usize = 0;
        while t < predicted_row_ids.len()
            invariant
                t <= predicted_row_ids@.len(),
                forall|u: int|
                    0 <= u < predicted_row_ids@.len() && #[trigger] predicted_row_ids@[u] < matrix.nrows ==> {
                        let r = predicted_row_ids@[u] as int;
                        r + 1 < matrix.row_ptr@.len()
                    },
            decreases predicted_row_ids@.len() - t,
        {
            let row_id = predicted_row_ids[t];
            if row_id < matrix.nrows {
                let start = matrix.row_ptr[row_id];
                let end = matrix.row_ptr[row_id + 1];
                let mut k = start;
                while k < end
                    invariant
                        start <= k,
                    decreases end - k,
                {
                    if k < matrix.col_indices.len() && k < matrix.values.len() {
                        touch(&matrix.col_indices[k]);
                        touch(&matrix.values[k]);
                    }
                    k = k + 1;
                }
            }
            t = t + 1;
        }
    }
}

} // verus!
