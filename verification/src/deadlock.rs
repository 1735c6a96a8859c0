//! Per-process deadlock detection: the banker's safety check for semaphores
//! and wait-for cycle detection for mutexes.
use vstd::prelude::*;
use crate::rows::{lemma_inc_release_round_trip, lemma_row_inc, lemma_row_release, lemma_dec_trim_wf, Rows, RowTable, WaitTable, row_or_zero, col_sum, rows_wf, has_key, key_index, lookup, inc_spec, release_spec, remove_key, widen_spec, zeros, all_zero, sorted};

verus! {

/// What `semaphore_down` and `mutex_lock` answer to a request they refuse.
pub const DEADLOCK_DETECTED: isize = -0xdead;

/// What the detector knows about one process.
pub struct DeadlockView {
    pub enabled: bool,
    /// Units of each semaphore.
    pub total: Seq<usize>,
    /// Units of each semaphore held, per thread.
    pub alloc: Rows,
    /// Units of each semaphore waited for, per thread.
    pub need: Rows,
    /// The thread that holds each mutex.
    pub mutex_owner: Seq<Option<usize>>,
    /// The mutex each blocked thread waits for.
    pub mutex_wait: Map<usize, usize>,
}

/// Deadlock detection state of one process; threads are named by their ids.
pub struct DeadlockState {
    /// Whether `semaphore_down` and `mutex_lock` refuse requests that would deadlock.
    pub enabled: bool,
    semaphore_total: Vec<usize>,
    semaphore_alloc: RowTable,
    semaphore_need: RowTable,
    mutex_owner: Vec<Option<usize>>,
    mutex_wait: WaitTable,
}

impl View for DeadlockState {
    type V = DeadlockView;

    closed spec fn view(&self) -> DeadlockView {
        DeadlockView {
            enabled: self.enabled,
            total: self.semaphore_total@,
            alloc: self.semaphore_alloc@,
            need: self.semaphore_need@,
            mutex_owner: self.mutex_owner@,
            mutex_wait: self.mutex_wait@,
        }
    }
}

/// Number of semaphores.
pub open spec fn width(v: DeadlockView) -> nat {
    v.total.len()
}

/// Units of every semaphore that `t` holds.
pub open spec fn alloc_row(v: DeadlockView, t: usize) -> Seq<usize> {
    row_or_zero(v.alloc, t, width(v))
}

/// Units of every semaphore that `t` waits for.
pub open spec fn need_row(v: DeadlockView, t: usize) -> Seq<usize> {
    row_or_zero(v.need, t, width(v))
}

/// What `t` waits for once `tid` also asks for one unit of semaphore `sem`.
pub open spec fn requested(v: DeadlockView, t: usize, tid: usize, sem: int, k: int) -> int {
    need_row(v, t)[k] + (if t == tid && k == sem { 1int } else { 0int })
}

/// Units of semaphore `k` that no thread holds (zero if more are held than exist).
pub open spec fn available(v: DeadlockView, k: int) -> int {
    let left = v.total[k] - col_sum(v.alloc, k, v.alloc.len() as int);
    if left >= 0 { left } else { 0 }
}

/// Units of semaphore `k` held by the first `m` threads of `active` marked finished.
pub open spec fn held(v: DeadlockView, active: Seq<usize>, fin: Seq<bool>, k: int, m: int) -> int
    decreases m,
{
    if m <= 0 {
        0
    } else {
        held(v, active, fin, k, m - 1) + (if fin[m - 1] { alloc_row(v, active[m - 1])[k] as int } else { 0int })
    }
}

/// Units of semaphore `k` free once every thread marked finished has returned its units.
pub open spec fn work(v: DeadlockView, active: Seq<usize>, fin: Seq<bool>, k: int) -> int {
    available(v, k) + held(v, active, fin, k, active.len() as int)
}

/// Thread `active[i]` can get all it waits for from what the finished threads return.
pub open spec fn can_finish(v: DeadlockView, active: Seq<usize>, fin: Seq<bool>, tid: usize, sem: int, i: int) -> bool {
    forall|k: int| 0 <= k < width(v) ==> #[trigger] requested(v, active[i], tid, sem, k) <= work(v, active, fin, k)
}

/// `fin` marks a set of threads that contains every thread that can finish once they
/// have returned their units.
pub open spec fn closed(v: DeadlockView, active: Seq<usize>, fin: Seq<bool>, tid: usize, sem: int) -> bool {
    &&& fin.len() == active.len()
    &&& forall|i: int| 0 <= i < active.len() && #[trigger] can_finish(v, active, fin, tid, sem, i) ==> fin[i]
}

/// Granting `tid` one more unit of semaphore `sem` leaves an unsafe state: some set of
/// threads closed under finishing leaves an active thread out, so no order lets all
/// active threads finish.
pub open spec fn unsafe_request(v: DeadlockView, active: Seq<usize>, tid: usize, sem: int) -> bool {
    &&& 0 <= sem < width(v)
    &&& exists|fin: Seq<bool>| #[trigger] closed(v, active, fin, tid, sem)
        && exists|i: int| 0 <= i < active.len() && !#[trigger] fin[i]
}

pub open spec fn subset(a: Seq<bool>, b: Seq<bool>) -> bool {
    forall|j: int| 0 <= j < a.len() && #[trigger] a[j] ==> b[j]
}

pub open spec fn count_false(fin: Seq<bool>) -> nat
    decreases fin.len(),
{
    if fin.len() == 0 {
        0
    } else {
        count_false(fin.drop_last()) + (if fin.last() { 0nat } else { 1nat })
    }
}

/// The holder of mutex `m`, if there is one.
pub open spec fn owner_of(v: DeadlockView, m: int) -> Option<usize> {
    if 0 <= m < v.mutex_owner.len() { v.mutex_owner[m] } else { None }
}

/// The `i`-th thread along the wait-for chain from mutex `m`: first the holder of `m`,
/// then the holder of the mutex that thread waits for, and so on; `None` once a
/// thread waits for nothing or the mutex it waits for is free.
pub open spec fn holder_at(v: DeadlockView, m: int, i: nat) -> Option<usize>
    decreases i,
{
    if i == 0 {
        owner_of(v, m)
    } else {
        match holder_at(v, m, (i - 1) as nat) {
            None => None,
            Some(h) => if v.mutex_wait.contains_key(h) { owner_of(v, v.mutex_wait[h] as int) } else { None },
        }
    }
}

/// Thread `t` lies on the wait-for chain from mutex `m`.
pub open spec fn chain_has(v: DeadlockView, m: int, t: usize) -> bool {
    exists|i: nat| #[trigger] holder_at(v, m, i) == Some(t)
}

/// The wait-for chain from mutex `m` comes back to a thread it already passed.
pub open spec fn chain_repeats(v: DeadlockView, m: int) -> bool {
    exists|i: nat, j: nat| i < j && #[trigger] holder_at(v, m, i) is Some && holder_at(v, m, i) == #[trigger] holder_at(v, m, j)
}

/// Waiting for mutex `m` closes a loop of threads each waiting for a mutex the next
/// holds: the chain from `m` reaches `tid`, or goes round a loop of other threads.
pub open spec fn mutex_cycle(v: DeadlockView, tid: usize, m: int) -> bool {
    chain_has(v, m, tid) || chain_repeats(v, m)
}

/// Once the chain ends it stays ended.
pub proof fn lemma_chain_end_persists(v: DeadlockView, m: int, i: nat, j: nat)
    requires
        i <= j,
        holder_at(v, m, i) is None,
    ensures
        holder_at(v, m, j) is None,
    decreases j - i,
{
    if i < j {
        lemma_chain_end_persists(v, m, i, (j - 1) as nat);
    }
}

/// Two places of the chain with the same thread go on the same way.
proof fn lemma_chain_same_after(v: DeadlockView, m: int, i: nat, j: nat, t: nat)
    requires
        holder_at(v, m, i) == holder_at(v, m, j),
    ensures
        holder_at(v, m, i + t) == holder_at(v, m, j + t),
    decreases t,
{
    if t > 0 {
        lemma_chain_same_after(v, m, i, j, (t - 1) as nat);
        assert(holder_at(v, m, i + t) == holder_at(v, m, (i + t - 1) as nat + 1));
    }
}

/// A chain that comes back to a thread never ends.
proof fn lemma_repeating_chain_never_ends(v: DeadlockView, m: int, i: nat, j: nat, k: nat)
    requires
        i < j,
        holder_at(v, m, i) is Some,
        holder_at(v, m, i) == holder_at(v, m, j),
    ensures
        holder_at(v, m, k) is Some,
    decreases k,
{
    if k <= j {
        if holder_at(v, m, k) is None {
            lemma_chain_end_persists(v, m, k, j);
        }
    } else {
        let t = (k - j) as nat;
        lemma_chain_same_after(v, m, i, j, t);
        lemma_repeating_chain_never_ends(v, m, i, j, i + t);
    }
}

/// A chain that has passed more threads than there are waiting threads has come back
/// to one of them: each thread but the last passed waits for something.
proof fn lemma_long_chain_repeats(v: DeadlockView, m: int, n: nat)
    requires
        v.mutex_wait.dom().finite(),
        v.mutex_wait.dom().len() == n,
        holder_at(v, m, n + 1) is Some,
    ensures
        chain_repeats(v, m),
{
    if !chain_repeats(v, m) {
        assert forall|k: nat| k <= n + 1 implies #[trigger] holder_at(v, m, k) is Some by {
            if holder_at(v, m, k) is None {
                lemma_chain_end_persists(v, m, k, n + 1);
            }
        }
        let s = Seq::new(n + 1, |k: int| holder_at(v, m, k as nat)->Some_0);
        assert forall|a: int, b: int| 0 <= a < s.len() && 0 <= b < s.len() && a != b implies s[a] != s[b] by {
            let (x, y) = if a < b { (a as nat, b as nat) } else { (b as nat, a as nat) };
            assert(holder_at(v, m, x) is Some);
            assert(holder_at(v, m, y) is Some);
            if s[a] == s[b] {
                assert(holder_at(v, m, x) == holder_at(v, m, y));
                assert(x < y && holder_at(v, m, x) is Some && holder_at(v, m, x) == holder_at(v, m, y));
            }
        }
        assert(s.no_duplicates());
        s.unique_seq_to_set();
        assert forall|t: usize| s.to_set().contains(t) implies v.mutex_wait.dom().contains(t) by {
            let a = choose|a: int| 0 <= a < s.len() && s[a] == t;
            let k = a as nat;
            assert(holder_at(v, m, k) is Some);
            assert(holder_at(v, m, k + 1) is Some);
            assert(holder_at(v, m, k + 1) == (if v.mutex_wait.contains_key(t) { owner_of(v, v.mutex_wait[t] as int) } else { None }));
        }
        vstd::set_lib::lemma_len_subset(s.to_set(), v.mutex_wait.dom());
        assert(false);
    }
}

/// Both resource matrices are sorted, as wide as the semaphore list, and free of all-zero rows.
pub open spec fn view_wf(v: DeadlockView) -> bool {
    &&& rows_wf(v.alloc, width(v))
    &&& rows_wf(v.need, width(v))
}

/// The detector after `tid` got one unit of semaphore `sem` at once.
pub open spec fn after_semaphore_acquired(v: DeadlockView, tid: usize, sem: int) -> DeadlockView {
    DeadlockView { alloc: inc_spec(v.alloc, tid, sem, width(v)), ..v }
}

/// The detector after `tid` blocked waiting for one unit of semaphore `sem`.
pub open spec fn after_semaphore_wait(v: DeadlockView, tid: usize, sem: int) -> DeadlockView {
    DeadlockView { need: inc_spec(v.need, tid, sem, width(v)), ..v }
}

/// The detector after one wait of `tid` for semaphore `sem` was withdrawn.
pub open spec fn after_semaphore_cancel_wait(v: DeadlockView, tid: usize, sem: int) -> DeadlockView {
    DeadlockView { need: release_spec(v.need, tid, sem), ..v }
}

/// The detector after `tid` blocked waiting for mutex `m`.
pub open spec fn after_mutex_wait(v: DeadlockView, tid: usize, m: usize) -> DeadlockView {
    DeadlockView { mutex_wait: v.mutex_wait.insert(tid, m), ..v }
}

/// The detector after thread `tid` exited.
pub open spec fn after_thread_exit(v: DeadlockView, tid: usize) -> DeadlockView {
    DeadlockView { need: remove_key(v.need, tid), mutex_wait: v.mutex_wait.remove(tid), ..v }
}

/// The detector after `tid` took mutex `m`.
pub open spec fn after_mutex_acquired(v: DeadlockView, tid: usize, m: int) -> DeadlockView {
    DeadlockView { mutex_owner: v.mutex_owner.update(m, Some(tid)), mutex_wait: v.mutex_wait.remove(tid), ..v }
}

/// The detector after `tid` unlocked mutex `m`, waking `waking` if some thread was woken.
pub open spec fn after_mutex_release(v: DeadlockView, tid: usize, m: int, waking: Option<usize>) -> DeadlockView {
    if owner_of(v, m) == Some(tid) {
        match waking {
            Some(w) => DeadlockView {
                mutex_owner: v.mutex_owner.update(m, Some(w)),
                mutex_wait: v.mutex_wait.remove(w),
                ..v
            },
            None => DeadlockView { mutex_owner: v.mutex_owner.update(m, None), ..v },
        }
    } else {
        v
    }
}

/// The detector after `tid` released one unit of semaphore `sem`, handing it to `waking`
/// if some thread was woken.
pub open spec fn after_semaphore_release(v: DeadlockView, tid: usize, sem: int, waking: Option<usize>) -> DeadlockView {
    match waking {
        None => DeadlockView { alloc: release_spec(v.alloc, tid, sem), ..v },
        Some(w) => DeadlockView {
            alloc: inc_spec(release_spec(v.alloc, tid, sem), w, sem, width(v)),
            need: release_spec(v.need, w, sem),
            ..v
        },
    }
}

pub proof fn lemma_held_update(v: DeadlockView, active: Seq<usize>, fin: Seq<bool>, i: int, k: int, m: int)
    requires
        fin.len() == active.len(),
        0 <= i < fin.len(),
        !fin[i],
        0 <= m <= fin.len(),
    ensures
        held(v, active, fin.update(i, true), k, m) == held(v, active, fin, k, m)
            + (if i < m { alloc_row(v, active[i])[k] as int } else { 0int }),
    decreases m,
{
    if m > 0 {
        lemma_held_update(v, active, fin, i, k, m - 1);
    }
}

pub proof fn lemma_held_mono(v: DeadlockView, active: Seq<usize>, a: Seq<bool>, b: Seq<bool>, k: int, m: int)
    requires
        a.len() == active.len(),
        b.len() == active.len(),
        subset(a, b),
        0 <= m <= a.len(),
    ensures
        held(v, active, a, k, m) <= held(v, active, b, k, m),
    decreases m,
{
    if m > 0 {
        lemma_held_mono(v, active, a, b, k, m - 1);
        if a[m - 1] {
            assert(b[m - 1]);
        }
    }
}

pub proof fn lemma_held_bound(v: DeadlockView, active: Seq<usize>, fin: Seq<bool>, k: int, m: int)
    requires
        0 <= m <= fin.len(),
        fin.len() == active.len(),
        0 <= k < width(v),
        rows_wf(v.alloc, width(v)),
    ensures
        0 <= held(v, active, fin, k, m) <= m * (usize::MAX as int),
    decreases m,
{
    if m > 0 {
        lemma_held_bound(v, active, fin, k, m - 1);
        let t = active[m - 1];
        if has_key(v.alloc, t) {
            let j = key_index(v.alloc, t);
            assert(v.alloc[j].1.len() == width(v));
        }
        assert(alloc_row(v, t)[k] <= usize::MAX);
        assert((m - 1) * (usize::MAX as int) + (usize::MAX as int) == m * (usize::MAX as int)) by (nonlinear_arith);
    }
}

pub proof fn lemma_count_false_update(fin: Seq<bool>, i: int)
    requires
        0 <= i < fin.len(),
        !fin[i],
    ensures
        count_false(fin.update(i, true)) + 1 == count_false(fin),
    decreases fin.len(),
{
    let u = fin.update(i, true);
    if i < fin.len() - 1 {
        assert(u.drop_last() =~= fin.drop_last().update(i, true));
        lemma_count_false_update(fin.drop_last(), i);
    } else {
        assert(u.drop_last() =~= fin.drop_last());
    }
}

pub proof fn lemma_col_sum_nonneg(rows: Rows, k: int, m: int)
    requires
        0 <= m <= rows.len(),
    ensures
        col_sum(rows, k, m) >= 0,
    decreases m,
{
    if m > 0 {
        lemma_col_sum_nonneg(rows, k, m - 1);
    }
}

impl DeadlockState {
    /// The row tables are sorted, as wide as the semaphore list, and free of all-zero rows.
    pub closed spec fn wf(&self) -> bool {
        &&& view_wf(self@)
        &&& self.mutex_wait.wf()
    }

    pub proof fn lemma_wf(&self)
        requires
            self.wf(),
        ensures
            view_wf(self@),
    {
    }

    /// No semaphore, no mutex, detection off.
    pub fn new() -> (r: DeadlockState)
        ensures
            r.wf(),
            r@ == (DeadlockView {
                enabled: false,
                total: Seq::empty(),
                alloc: Seq::empty(),
                need: Seq::empty(),
                mutex_owner: Seq::empty(),
                mutex_wait: Map::empty(),
            }),
    {
        let r = DeadlockState {
            enabled: false,
            semaphore_total: Vec::new(),
            semaphore_alloc: RowTable::new(),
            semaphore_need: RowTable::new(),
            mutex_owner: Vec::new(),
            mutex_wait: WaitTable::new(),
        };
        assert(r@.total =~= Seq::<usize>::empty());
        assert(r@.mutex_owner =~= Seq::<Option<usize>>::empty());
        r
    }

    /// Adds a semaphore with `total` units; returns its id.
    pub fn register_semaphore(&mut self, total: usize) -> (r: usize)
        requires
            old(self).wf(),
        ensures
            final(self).wf(),
            r == old(self)@.total.len(),
            final(self)@ == (DeadlockView {
                total: old(self)@.total.push(total),
                alloc: widen_spec(old(self)@.alloc),
                need: widen_spec(old(self)@.need),
                ..old(self)@
            }),
    {
        self.semaphore_total.push(total);
        self.semaphore_alloc.widen();
        self.semaphore_need.widen();
        let new_width = self.semaphore_total.len();
        new_width - 1
    }

    /// Adds a mutex nobody holds; returns its id.
    pub fn register_mutex(&mut self) -> (r: usize)
        requires
            old(self).wf(),
        ensures
            final(self).wf(),
            r == old(self)@.mutex_owner.len(),
            final(self)@ == (DeadlockView { mutex_owner: old(self)@.mutex_owner.push(None), ..old(self)@ }),
    {
        self.mutex_owner.push(None);
        self.mutex_owner.len() - 1
    }

    /// Turns detection off for `0`, on for `1`; any other value is refused
    /// with `-1` and changes nothing.
    pub fn enable_deadlock_detect(&mut self, is_enable: i32) -> (r: isize)
        requires
            old(self).wf(),
        ensures
            final(self).wf(),
            is_enable == 0 || is_enable == 1 ==> r == 0 && final(self)@ == (DeadlockView {
                enabled: is_enable == 1,
                ..old(self)@
            }),
            is_enable != 0 && is_enable != 1 ==> r == -1 && final(self)@ == old(self)@,
    {
        if is_enable == 0 {
            self.enabled = false;
            0
        } else if is_enable == 1 {
            self.enabled = true;
            0
        } else {
            -1
        }
    }

    /// `semaphore_down` for thread `tid` of a process with the given active threads and
    /// semaphore slots: a missing or empty slot is answered -1 and changes nothing;
    /// with detection on, a request that would leave the process unsafe is refused with
    /// `DEADLOCK_DETECTED` before the semaphore is touched and changes nothing;
    /// otherwise `try_down` asks the semaphore, and the answer is recorded: 0 when a
    /// unit was granted, -1 when `tid` now waits. `try_down` may be unusable when the
    /// request is refused: a refused request never asks the semaphore.
    pub fn semaphore_down<T>(&mut self, semaphores: &[Option<T>], active_threads: &[usize], tid: usize,
        sem_id: usize, try_down: impl FnOnce(&T) -> bool) -> (r: isize)
        requires
            old(self).wf(),
            sem_id < semaphores@.len() && semaphores@[sem_id as int] is Some ==> {
                &&& sem_id < width(old(self)@)
                &&& alloc_row(old(self)@, tid)[sem_id as int] < usize::MAX
                &&& need_row(old(self)@, tid)[sem_id as int] < usize::MAX
            },
            !(old(self)@.enabled && unsafe_request(old(self)@, active_threads@, tid, sem_id as int))
                ==> forall|sem: &T| call_requires(try_down, (sem,)),
        ensures
            final(self).wf(),
            !(sem_id < semaphores@.len() && semaphores@[sem_id as int] is Some) ==> r == -1 && final(self)@ == old(self)@,
            sem_id < semaphores@.len() && semaphores@[sem_id as int] is Some ==> {
                &&& old(self)@.enabled && unsafe_request(old(self)@, active_threads@, tid, sem_id as int)
                    ==> r == DEADLOCK_DETECTED && final(self)@ == old(self)@
                &&& !(old(self)@.enabled && unsafe_request(old(self)@, active_threads@, tid, sem_id as int)) ==> {
                    &&& call_ensures(try_down, (&semaphores@[sem_id as int]->Some_0,), r == 0)
                    &&& r == 0 ==> final(self)@ == after_semaphore_acquired(old(self)@, tid, sem_id as int)
                    &&& r != 0 ==> r == -1 && final(self)@ == after_semaphore_wait(old(self)@, tid, sem_id as int)
                }
            },
    {
        if sem_id >= semaphores.len() {
            return -1;
        }
        match &semaphores[sem_id] {
            None => -1,
            Some(sem) => {
                if self.enabled && self.semaphore_would_deadlock(active_threads, tid, sem_id) {
                    return DEADLOCK_DETECTED;
                }
                if !try_down(sem) {
                    self.semaphore_wait(tid, sem_id);
                    -1
                } else {
                    self.semaphore_acquired(tid, sem_id);
                    0
                }
            },
        }
    }

    /// `mutex_lock` for thread `tid` of a process with the given mutex slots: a missing
    /// or empty slot is answered -1 and changes nothing; with detection on, a lock that
    /// would close a wait-for loop is refused with `DEADLOCK_DETECTED` before the mutex
    /// is touched and changes nothing; otherwise `try_lock` asks the mutex, and the
    /// answer is recorded: 0 when `tid` got it, -1 when `tid` now waits. `try_lock` may
    /// be unusable when the lock is refused: a refused lock never asks the mutex.
    pub fn mutex_lock<T>(&mut self, mutexes: &[Option<T>], tid: usize, mutex_id: usize,
        try_lock: impl FnOnce(&T) -> bool) -> (r: isize)
        requires
            old(self).wf(),
            mutex_id < mutexes@.len() && mutexes@[mutex_id as int] is Some ==> mutex_id < old(self)@.mutex_owner.len(),
            !(old(self)@.enabled && mutex_cycle(old(self)@, tid, mutex_id as int))
                ==> forall|mutex: &T| call_requires(try_lock, (mutex,)),
        ensures
            final(self).wf(),
            !(mutex_id < mutexes@.len() && mutexes@[mutex_id as int] is Some) ==> r == -1 && final(self)@ == old(self)@,
            mutex_id < mutexes@.len() && mutexes@[mutex_id as int] is Some ==> {
                &&& old(self)@.enabled && mutex_cycle(old(self)@, tid, mutex_id as int)
                    ==> r == DEADLOCK_DETECTED && final(self)@ == old(self)@
                &&& !(old(self)@.enabled && mutex_cycle(old(self)@, tid, mutex_id as int)) ==> {
                    &&& call_ensures(try_lock, (&mutexes@[mutex_id as int]->Some_0,), r == 0)
                    &&& r == 0 ==> final(self)@ == after_mutex_acquired(old(self)@, tid, mutex_id as int)
                    &&& r != 0 ==> r == -1 && final(self)@ == after_mutex_wait(old(self)@, tid, mutex_id)
                }
            },
    {
        if mutex_id >= mutexes.len() {
            return -1;
        }
        match &mutexes[mutex_id] {
            None => -1,
            Some(mutex) => {
                if self.enabled && self.mutex_would_deadlock(tid, mutex_id) {
                    return DEADLOCK_DETECTED;
                }
                if !try_lock(mutex) {
                    self.mutex_wait(tid, mutex_id);
                    -1
                } else {
                    self.mutex_acquired(tid, mutex_id);
                    0
                }
            },
        }
    }

    /// The bookkeeping of `condvar_wait`: `tid` gave up mutex `mutex_id` (waking
    /// `waking_tid`, if any) and then either got it back at once (`reacquired`) or now
    /// waits for it; answers 0 or -1 accordingly.
    pub fn condvar_wait(&mut self, tid: usize, mutex_id: usize, waking_tid: Option<usize>, reacquired: bool) -> (r: isize)
        requires
            old(self).wf(),
            mutex_id < old(self)@.mutex_owner.len(),
        ensures
            final(self).wf(),
            r == (if reacquired { 0isize } else { -1isize }),
            final(self)@ == (if reacquired {
                after_mutex_acquired(after_mutex_release(old(self)@, tid, mutex_id as int, waking_tid), tid, mutex_id as int)
            } else {
                after_mutex_wait(after_mutex_release(old(self)@, tid, mutex_id as int, waking_tid), tid, mutex_id)
            }),
    {
        self.mutex_release(tid, mutex_id, waking_tid);
        if reacquired {
            self.mutex_acquired(tid, mutex_id);
            0
        } else {
            self.mutex_wait(tid, mutex_id);
            -1
        }
    }

    /// Records that `tid` got one unit of semaphore `sem_id` at once.
    pub fn semaphore_acquired(&mut self, tid: usize, sem_id: usize)
        requires
            old(self).wf(),
            sem_id < width(old(self)@),
            alloc_row(old(self)@, tid)[sem_id as int] < usize::MAX,
        ensures
            final(self).wf(),
            final(self)@ == after_semaphore_acquired(old(self)@, tid, sem_id as int),
    {
        let width = self.semaphore_total.len();
        self.semaphore_alloc.increment(tid, sem_id, width);
    }

    /// Records that `tid` blocks waiting for one unit of semaphore `sem_id`.
    pub fn semaphore_wait(&mut self, tid: usize, sem_id: usize)
        requires
            old(self).wf(),
            sem_id < width(old(self)@),
            need_row(old(self)@, tid)[sem_id as int] < usize::MAX,
        ensures
            final(self).wf(),
            final(self)@ == after_semaphore_wait(old(self)@, tid, sem_id as int),
    {
        let width = self.semaphore_total.len();
        self.semaphore_need.increment(tid, sem_id, width);
    }

    /// Withdraws one wait of `tid` for semaphore `sem_id`, if it has one.
    pub fn semaphore_cancel_wait(&mut self, tid: usize, sem_id: usize)
        requires
            old(self).wf(),
        ensures
            final(self).wf(),
            final(self)@ == after_semaphore_cancel_wait(old(self)@, tid, sem_id as int),
    {
        self.semaphore_need.release(tid, sem_id);
    }

    /// Records that `tid` released one unit of semaphore `sem_id`; a thread it woke
    /// gets that unit at once and stops waiting for it.
    pub fn semaphore_release(&mut self, tid: usize, sem_id: usize, waking_tid: Option<usize>)
        requires
            old(self).wf(),
            waking_tid matches Some(w) ==> sem_id < width(old(self)@)
                && row_or_zero(release_spec(old(self)@.alloc, tid, sem_id as int), w, width(old(self)@))[sem_id as int]
                < usize::MAX,
        ensures
            final(self).wf(),
            final(self)@ == after_semaphore_release(old(self)@, tid, sem_id as int, waking_tid),
    {
        self.semaphore_alloc.release(tid, sem_id);
        if let Some(w) = waking_tid {
            self.semaphore_cancel_wait(w, sem_id);
            self.semaphore_acquired(w, sem_id);
        }
    }

    /// Records that `tid` holds mutex `mutex_id` and waits for nothing.
    pub fn mutex_acquired(&mut self, tid: usize, mutex_id: usize)
        requires
            old(self).wf(),
            mutex_id < old(self)@.mutex_owner.len(),
        ensures
            final(self).wf(),
            final(self)@ == after_mutex_acquired(old(self)@, tid, mutex_id as int),
    {
        self.mutex_wait.remove(tid);
        self.mutex_owner.set(mutex_id, Some(tid));
    }

    /// Records that `tid` blocks waiting for mutex `mutex_id`.
    pub fn mutex_wait(&mut self, tid: usize, mutex_id: usize)
        requires
            old(self).wf(),
        ensures
            final(self).wf(),
            final(self)@ == after_mutex_wait(old(self)@, tid, mutex_id),
    {
        self.mutex_wait.insert(tid, mutex_id);
    }

    /// Records that `tid` unlocked mutex `mutex_id`; if `tid` held it, a thread it woke
    /// becomes the holder and stops waiting, and otherwise nobody holds it.
    pub fn mutex_release(&mut self, tid: usize, mutex_id: usize, waking_tid: Option<usize>)
        requires
            old(self).wf(),
        ensures
            final(self).wf(),
            final(self)@ == after_mutex_release(old(self)@, tid, mutex_id as int, waking_tid),
    {
        if mutex_id < self.mutex_owner.len() && self.mutex_owner[mutex_id] == Some(tid) {
            if let Some(w) = waking_tid {
                self.mutex_wait.remove(w);
                self.mutex_owner.set(mutex_id, Some(w));
            } else {
                self.mutex_owner.set(mutex_id, None);
            }
        }
    }

    /// Drops what an exiting thread waited for.
    pub fn on_thread_exit(&mut self, tid: usize)
        requires
            old(self).wf(),
        ensures
            final(self).wf(),
            final(self)@ == after_thread_exit(old(self)@, tid),
    {
        self.semaphore_need.remove(tid);
        self.mutex_wait.remove(tid);
    }

    /// Whether `tid` waiting for mutex `mutex_id` closes a wait-for loop: following
    /// holder, the mutex it waits for, that mutex's holder, and so on, meets `tid` or
    /// comes back to a thread already passed. The walk takes at most one step more
    /// than there are waiting threads.
    pub fn mutex_would_deadlock(&self, tid: usize, mutex_id: usize) -> (r: bool)
        requires
            self.wf(),
        ensures
            r == mutex_cycle(self@, tid, mutex_id as int),
    {
        let ghost v = self@;
        let ghost m = mutex_id as int;
        let n = self.mutex_wait.len();
        let mut holder: usize = if mutex_id < self.mutex_owner.len() {
            match self.mutex_owner[mutex_id] {
                Some(h) => h,
                None => {
                    proof {
                        assert forall|k: nat| #[trigger] holder_at(v, m, k) is None by {
                            lemma_chain_end_persists(v, m, 0, k);
                        }
                    }
                    return false;
                },
            }
        } else {
            proof {
                assert forall|k: nat| #[trigger] holder_at(v, m, k) is None by {
                    lemma_chain_end_persists(v, m, 0, k);
                }
            }
            return false;
        };
        let mut steps: usize = 0;
        loop
            invariant
                self@ == v,
                self.wf(),
                m == mutex_id,
                v.mutex_wait.dom().finite(),
                n == v.mutex_wait.dom().len(),
                steps <= n,
                holder_at(v, m, steps as nat) == Some(holder),
                forall|k: nat| k < steps ==> #[trigger] holder_at(v, m, k) != Some(tid),
            decreases n - steps,
        {
            if holder == tid {
                assert(chain_has(v, m, tid));
                return true;
            }
            let ghost s = steps as nat;
            let wait_mutex_id = match self.mutex_wait.get(holder) {
                Some(w) => w,
                None => {
                    proof {
                        assert(holder_at(v, m, s + 1) is None);
                        self.lemma_chain_stops(tid, m, s);
                    }
                    return false;
                },
            };
            let next_holder = if wait_mutex_id < self.mutex_owner.len() {
                match self.mutex_owner[wait_mutex_id] {
                    Some(h) => h,
                    None => {
                        proof {
                            assert(holder_at(v, m, s + 1) is None);
                            self.lemma_chain_stops(tid, m, s);
                        }
                        return false;
                    },
                }
            } else {
                proof {
                    assert(holder_at(v, m, s + 1) is None);
                    self.lemma_chain_stops(tid, m, s);
                }
                return false;
            };
            assert(holder_at(v, m, s + 1) == Some(next_holder));
            holder = next_holder;
            if steps == n {
                proof {
                    lemma_long_chain_repeats(v, m, n as nat);
                }
                return true;
            }
            steps = steps + 1;
        }
    }

    /// A chain that ends right after place `s`, without meeting `tid` before, never
    /// meets `tid` and never loops, if the thread at `s` is not `tid` either.
    proof fn lemma_chain_stops(&self, tid: usize, m: int, s: nat)
        requires
            holder_at(self@, m, s + 1) is None,
            holder_at(self@, m, s) is Some,
            holder_at(self@, m, s) != Some(tid),
            forall|k: nat| k < s ==> #[trigger] holder_at(self@, m, k) != Some(tid),
        ensures
            !mutex_cycle(self@, tid, m),
    {
        let v = self@;
        assert forall|k: nat| #[trigger] holder_at(v, m, k) != Some(tid) by {
            if k > s {
                lemma_chain_end_persists(v, m, s + 1, k);
            }
        }
        if chain_repeats(v, m) {
            let (i, j) = choose|i: nat, j: nat| i < j && #[trigger] holder_at(v, m, i) is Some && holder_at(v, m, i) == #[trigger] holder_at(v, m, j);
            lemma_repeating_chain_never_ends(v, m, i, j, s + 1);
        }
    }

    /// Units of each semaphore that no thread holds.
    fn semaphore_available(&self) -> (r: Vec<usize>)
        requires
            self.wf(),
        ensures
            r@.len() == width(self@),
            forall|k: int| 0 <= k < width(self@) ==> #[trigger] r@[k] == available(self@, k),
    {
        let ghost v = self@;
        let width = self.semaphore_total.len();
        let mut available = self.semaphore_total.clone();
        let mut i: usize = 0;
        let n = self.semaphore_alloc.len();
        while i < n
            invariant
                self@ == v,
                self.wf(),
                n == v.alloc.len(),
                width == v.total.len(),
                i <= n,
                available@.len() == width,
                forall|k: int| 0 <= k < width ==> {
                    let left = v.total[k] - col_sum(v.alloc, k, i as int);
                    #[trigger] available@[k] == (if left >= 0 { left } else { 0 })
                },
            decreases n - i,
        {
            let mut k: usize = 0;
            assert(v.alloc[i as int].1.len() == width);
            while k < width
                invariant
                    self@ == v,
                    self.wf(),
                    n == v.alloc.len(),
                    width == v.total.len(),
                    i < n,
                    k <= width,
                    v.alloc[i as int].1.len() == width,
                    available@.len() == width,
                    forall|q: int| 0 <= q < width ==> {
                        let left = v.total[q] - col_sum(v.alloc, q, if q < k { i + 1 } else { i as int });
                        #[trigger] available@[q] == (if left >= 0 { left } else { 0 })
                    },
                decreases width - k,
            {
                let count = self.semaphore_alloc.value(i, k);
                let cur = available[k];
                available.set(k, cur.saturating_sub(count));
                k = k + 1;
            }
            i = i + 1;
        }
        available
    }

    /// Whether thread `tid` blocking for one more unit of semaphore `sem_id` would leave
    /// the active threads of the process in an unsafe state (banker's algorithm).
    pub fn semaphore_would_deadlock(&self, active_threads: &[usize], tid: usize, sem_id: usize) -> (r: bool)
        requires
            self.wf(),
        ensures
            r == unsafe_request(self@, active_threads@, tid, sem_id as int),
    {
        let ghost v = self@;
        let ghost active = active_threads@;
        let cols = self.semaphore_total.len();
        if sem_id >= cols {
            return false;
        }
        let n = active_threads.len();
        let avail = self.semaphore_available();
        let mut acc: Vec<u128> = Vec::new();
        let mut k: usize = 0;
        while k < cols
            invariant
                cols == width(v),
                avail@.len() == cols,
                forall|q: int| 0 <= q < cols ==> #[trigger] avail@[q] == available(v, q),
                k <= cols,
                acc@.len() == k,
                forall|q: int| 0 <= q < k ==> #[trigger] acc@[q] == available(v, q),
            decreases cols - k,
        {
            acc.push(avail[k] as u128);
            k = k + 1;
        }
        let mut finish: Vec<bool> = Vec::new();
        let mut i: usize = 0;
        while i < n
            invariant
                i <= n,
                finish@.len() == i,
                forall|q: int| 0 <= q < i ==> !#[trigger] finish@[q],
            decreases n - i,
        {
            finish.push(false);
            i = i + 1;
        }
        proof {
            assert forall|q: int| 0 <= q < cols implies #[trigger] acc@[q] == work(v, active, finish@, q) by {
                lemma_held_zero(v, active, finish@, q, n as int);
            }
            assert forall|s: Seq<bool>| #[trigger] closed(v, active, s, tid, sem_id as int) implies subset(finish@, s) by {}
        }
        let mut again = true;
        while again
            invariant
                self@ == v,
                self.wf(),
                active_threads@ == active,
                n == active.len(),
                cols == width(v),
                sem_id < cols,
                finish@.len() == n,
                acc@.len() == cols,
                forall|q: int| 0 <= q < cols ==> #[trigger] acc@[q] == work(v, active, finish@, q),
                forall|s: Seq<bool>| #[trigger] closed(v, active, s, tid, sem_id as int) ==> subset(finish@, s),
                !again ==> closed(v, active, finish@, tid, sem_id as int),
            decreases count_false(finish@) + (if again { 1nat } else { 0nat }),
        {
            let ghost start = finish@;
            let mut progressed = false;
            let mut idx: usize = 0;
            while idx < n
                invariant
                    self@ == v,
                    self.wf(),
                    active_threads@ == active,
                    n == active.len(),
                    cols == width(v),
                    sem_id < cols,
                    idx <= n,
                    finish@.len() == n,
                    acc@.len() == cols,
                    forall|q: int| 0 <= q < cols ==> #[trigger] acc@[q] == work(v, active, finish@, q),
                    forall|s: Seq<bool>| #[trigger] closed(v, active, s, tid, sem_id as int) ==> subset(finish@, s),
                    progressed ==> count_false(finish@) < count_false(start),
                    !progressed ==> finish@ == start,
                    !progressed ==> forall|j: int| 0 <= j < idx && !finish@[j]
                        ==> !#[trigger] can_finish(v, active, finish@, tid, sem_id as int, j),
                decreases n - idx,
            {
                if !finish[idx] {
                    let t = active_threads[idx];
                    let mut ok = true;
                    let mut k: usize = 0;
                    while k < cols
                        invariant
                            self@ == v,
                            self.wf(),
                            cols == width(v),
                            t == active[idx as int],
                            idx < n,
                            n == active.len(),
                            sem_id < cols,
                            k <= cols,
                            acc@.len() == cols,
                            forall|q: int| 0 <= q < cols ==> #[trigger] acc@[q] == work(v, active, finish@, q),
                            ok == forall|q: int| 0 <= q < k
                                ==> #[trigger] requested(v, t, tid, sem_id as int, q) <= work(v, active, finish@, q),
                        decreases cols - k,
                    {
                        let need = self.semaphore_need.count(t, k, Ghost(cols as nat)) as u128
                            + if t == tid && k == sem_id { 1u128 } else { 0u128 };
                        assert(need == requested(v, t, tid, sem_id as int, k as int));
                        if need > acc[k] {
                            ok = false;
                        }
                        k = k + 1;
                    }
                    assert(ok == can_finish(v, active, finish@, tid, sem_id as int, idx as int));
                    if ok {
                        let ghost before = finish@;
                        let mut k: usize = 0;
                        while k < cols
                            invariant
                                self@ == v,
                                self.wf(),
                                cols == width(v),
                                t == active[idx as int],
                                idx < n,
                                n == active.len(),
                                before.len() == n,
                                !before[idx as int],
                                k <= cols,
                                acc@.len() == cols,
                                forall|q: int| k <= q < cols ==> #[trigger] acc@[q] == work(v, active, before, q),
                                forall|q: int| 0 <= q < k ==> #[trigger] acc@[q]
                                    == work(v, active, before.update(idx as int, true), q),
                            decreases cols - k,
                        {
                            let a = self.semaphore_alloc.count(t, k, Ghost(cols as nat));
                            proof {
                                lemma_held_update(v, active, before, idx as int, k as int, n as int);
                                lemma_held_bound(v, active, before.update(idx as int, true), k as int, n as int);
                                lemma_col_sum_nonneg(v.alloc, k as int, v.alloc.len() as int);
                                assert(available(v, k as int) <= usize::MAX);
                                assert((n as int) * (usize::MAX as int) + (usize::MAX as int) <= u128::MAX) by (nonlinear_arith)
                                    requires
                                        n <= usize::MAX,
                                        usize::MAX <= u64::MAX,
                                ;
                            }
                            let w = acc[k];
                            acc.set(k, w + a as u128);
                            k = k + 1;
                        }
                        finish.set(idx, true);
                        proof {
                            lemma_count_false_update(before, idx as int);
                            assert forall|s: Seq<bool>| #[trigger] closed(v, active, s, tid, sem_id as int) implies subset(finish@, s) by {
                                assert(subset(before, s));
                                assert forall|q: int| 0 <= q < width(v) implies work(v, active, before, q) <= work(v, active, s, q) by {
                                    lemma_held_mono(v, active, before, s, q, n as int);
                                }
                                assert(can_finish(v, active, s, tid, sem_id as int, idx as int)) by {
                                    assert forall|q: int| 0 <= q < width(v) implies #[trigger] requested(v, active[idx as int], tid, sem_id as int, q)
                                        <= work(v, active, s, q) by {
                                        assert(requested(v, active[idx as int], tid, sem_id as int, q) <= work(v, active, before, q));
                                    }
                                }
                            }
                        }
                        progressed = true;
                    }
                }
                idx = idx + 1;
            }
            if !progressed {
                again = false;
            }
        }
        let mut j: usize = 0;
        while j < n
            invariant
                self@ == v,
                active_threads@ == active,
                j <= n,
                n == active.len(),
                sem_id < cols,
                cols == width(v),
                finish@.len() == n,
                closed(v, active, finish@, tid, sem_id as int),
                forall|s: Seq<bool>| #[trigger] closed(v, active, s, tid, sem_id as int) ==> subset(finish@, s),
                forall|q: int| 0 <= q < j ==> #[trigger] finish@[q],
            decreases n - j,
        {
            if !finish[j] {
                proof {
                    assert(closed(v, active, finish@, tid, sem_id as int));
                    assert(!finish@[j as int]);
                    assert(exists|i: int| 0 <= i < active.len() && !#[trigger] finish@[i]);
                }
                return true;
            }
            j = j + 1;
        }
        proof {
            if unsafe_request(v, active, tid, sem_id as int) {
                let fin = choose|fin: Seq<bool>| #[trigger] closed(v, active, fin, tid, sem_id as int)
                    && exists|i: int| 0 <= i < active.len() && !#[trigger] fin[i];
                let i = choose|i: int| 0 <= i < active.len() && !#[trigger] fin[i];
                assert(subset(finish@, fin));
                assert(finish@[i]);
            }
        }
        false
    }
}

/// Taking a unit of a semaphore and giving it back, with nobody woken, leaves the
/// detector as it was.
pub proof fn law_semaphore_acquire_release(v: DeadlockView, tid: usize, sem: int)
    requires
        view_wf(v),
        0 <= sem < width(v),
        alloc_row(v, tid)[sem] < usize::MAX,
    ensures
        after_semaphore_release(after_semaphore_acquired(v, tid, sem), tid, sem, None) == v,
{
    lemma_inc_release_round_trip(v.alloc, tid, sem, width(v));
}

/// Getting a unit of a semaphore at once adds one to what that thread holds of it,
/// and blocking on it adds one to what that thread waits for; withdrawing a wait takes
/// one off again where there is one. No other count changes.
pub proof fn law_semaphore_counts(v: DeadlockView, tid: usize, sem: int)
    requires
        view_wf(v),
        0 <= sem < width(v),
    ensures
        alloc_row(v, tid)[sem] < usize::MAX ==> forall|t: usize, j: int| 0 <= j < width(v)
            ==> #[trigger] alloc_row(after_semaphore_acquired(v, tid, sem), t)[j]
                == alloc_row(v, t)[j] + (if t == tid && j == sem { 1int } else { 0int }),
        need_row(v, tid)[sem] < usize::MAX ==> forall|t: usize, j: int| 0 <= j < width(v)
            ==> #[trigger] need_row(after_semaphore_wait(v, tid, sem), t)[j]
                == need_row(v, t)[j] + (if t == tid && j == sem { 1int } else { 0int }),
        forall|t: usize, j: int| 0 <= j < width(v)
            ==> #[trigger] need_row(after_semaphore_cancel_wait(v, tid, sem), t)[j]
                == need_row(v, t)[j] - (if t == tid && j == sem && need_row(v, tid)[sem] > 0 { 1int } else { 0int }),
        after_semaphore_acquired(v, tid, sem).need == v.need,
        after_semaphore_wait(v, tid, sem).alloc == v.alloc,
        after_semaphore_cancel_wait(v, tid, sem).alloc == v.alloc,
{
    let wd = width(v);
    if alloc_row(v, tid)[sem] < usize::MAX {
        lemma_row_inc(v.alloc, tid, sem, wd);
    }
    if need_row(v, tid)[sem] < usize::MAX {
        lemma_row_inc(v.need, tid, sem, wd);
    }
    lemma_row_release(v.need, tid, sem, wd);
}

/// Returning a unit of a semaphore takes it from the releasing thread and, where a
/// waiting thread is woken, hands it straight to that thread, which stops waiting for
/// it: the woken thread holds one unit more, the releaser one unit less (where it held
/// any), and no other count changes.
pub proof fn law_semaphore_release_hands_over(v: DeadlockView, tid: usize, sem: int, waking: Option<usize>)
    requires
        view_wf(v),
        0 <= sem < width(v),
        waking matches Some(w) ==> alloc_row(v, w)[sem] < usize::MAX,
    ensures
        ({
            let after = after_semaphore_release(v, tid, sem, waking);
            &&& width(after) == width(v)
            &&& forall|t: usize, j: int| 0 <= j < width(v) ==> #[trigger] alloc_row(after, t)[j]
                == alloc_row(v, t)[j]
                    - (if t == tid && j == sem && alloc_row(v, tid)[sem] > 0 { 1int } else { 0int })
                    + (if waking == Some(t) && j == sem { 1int } else { 0int })
            &&& forall|t: usize, j: int| 0 <= j < width(v) ==> #[trigger] need_row(after, t)[j]
                == need_row(v, t)[j]
                    - (if waking == Some(t) && j == sem && need_row(v, t)[sem] > 0 { 1int } else { 0int })
            &&& after.mutex_owner == v.mutex_owner
            &&& after.mutex_wait == v.mutex_wait
            &&& after.enabled == v.enabled
        }),
{
    let wd = width(v);
    lemma_row_release(v.alloc, tid, sem, wd);
    match waking {
        Some(w) => {
            let r = release_spec(v.alloc, tid, sem);
            lemma_dec_trim_wf(v.alloc, tid, sem, wd);
            assert(row_or_zero(r, w, wd)[sem] < usize::MAX);
            lemma_row_inc(r, w, sem, wd);
            lemma_row_release(v.need, w, sem, wd);
        },
        None => {},
    }
}

/// Blocking on a semaphore and withdrawing that wait leaves the detector as it was.
pub proof fn law_semaphore_wait_cancel(v: DeadlockView, tid: usize, sem: int)
    requires
        view_wf(v),
        0 <= sem < width(v),
        need_row(v, tid)[sem] < usize::MAX,
    ensures
        after_semaphore_cancel_wait(after_semaphore_wait(v, tid, sem), tid, sem) == v,
{
    lemma_inc_release_round_trip(v.need, tid, sem, width(v));
}

/// Locking a mutex and unlocking it with nobody woken leaves it free, and the thread
/// waits for nothing.
pub proof fn law_mutex_lock_unlock(v: DeadlockView, tid: usize, m: int)
    requires
        0 <= m < v.mutex_owner.len(),
    ensures
        owner_of(after_mutex_release(after_mutex_acquired(v, tid, m), tid, m, None), m) == None::<usize>,
        !after_mutex_release(after_mutex_acquired(v, tid, m), tid, m, None).mutex_wait.contains_key(tid),
{
}

/// Unlocking a held mutex hands it to the woken thread, which then waits for nothing.
pub proof fn law_mutex_handoff(v: DeadlockView, tid: usize, m: int, w: usize)
    requires
        owner_of(v, m) == Some(tid),
    ensures
        owner_of(after_mutex_release(v, tid, m, Some(w)), m) == Some(w),
        !after_mutex_release(v, tid, m, Some(w)).mutex_wait.contains_key(w),
{
}

/// A thread that asks again for a mutex it holds is always reported.
pub proof fn law_relock_is_deadlock(v: DeadlockView, tid: usize, m: int)
    requires
        owner_of(v, m) == Some(tid),
    ensures
        mutex_cycle(v, tid, m),
{
    assert(holder_at(v, m, 0) == Some(tid));
}

/// Waiting for a free mutex is never reported.
pub proof fn law_free_mutex_is_safe(v: DeadlockView, tid: usize, m: int)
    requires
        owner_of(v, m) == None::<usize>,
    ensures
        !mutex_cycle(v, tid, m),
{
    assert forall|k: nat| #[trigger] holder_at(v, m, k) is None by {
        lemma_chain_end_persists(v, m, 0, k);
    }
}

/// Two threads that each wait for the mutex the other holds are reported to any
/// thread that asks for one of those mutexes.
pub proof fn law_foreign_loop_is_deadlock(v: DeadlockView, tid: usize, m: int, a: usize, b: usize)
    requires
        owner_of(v, m) == Some(a),
        v.mutex_wait.contains_key(a),
        owner_of(v, v.mutex_wait[a] as int) == Some(b),
        v.mutex_wait.contains_key(b),
        v.mutex_wait[b] == m,
    ensures
        mutex_cycle(v, tid, m),
{
    assert(holder_at(v, m, 0) == Some(a));
    assert(holder_at(v, m, 1) == Some(b));
    assert(holder_at(v, m, 2) == Some(a));
    assert(0 < 2 && holder_at(v, m, 0) is Some && holder_at(v, m, 0) == holder_at(v, m, 2));
}

/// With no thread blocked on any semaphore, asking for a semaphore that has a free unit
/// is never reported.
pub proof fn law_free_unit_is_safe(v: DeadlockView, active: Seq<usize>, tid: usize, sem: int)
    requires
        view_wf(v),
        v.need.len() == 0,
        0 <= sem < width(v),
        available(v, sem) >= 1,
    ensures
        !unsafe_request(v, active, tid, sem),
{
    assert forall|fin: Seq<bool>| #[trigger] closed(v, active, fin, tid, sem)
        implies forall|i: int| 0 <= i < active.len() ==> #[trigger] fin[i] by {
        assert forall|i: int| 0 <= i < active.len() implies #[trigger] fin[i] by {
            assert forall|k: int| 0 <= k < width(v) implies #[trigger] requested(v, active[i], tid, sem, k)
                <= work(v, active, fin, k) by {
                assert(!has_key(v.need, active[i]));
                lemma_held_nonneg(v, active, fin, k, active.len() as int);
                lemma_col_sum_nonneg(v.alloc, k, v.alloc.len() as int);
            }
            assert(can_finish(v, active, fin, tid, sem, i));
        }
    }
}

/// An exiting thread no longer waits for any semaphore or mutex.
pub proof fn law_exit_clears_waits(v: DeadlockView, tid: usize)
    requires
        view_wf(v),
    ensures
        need_row(after_thread_exit(v, tid), tid) == zeros(width(v)),
        !after_thread_exit(v, tid).mutex_wait.contains_key(tid),
{
    crate::rows::lemma_remove_key(v.need, tid);
}

pub proof fn lemma_held_nonneg(v: DeadlockView, active: Seq<usize>, fin: Seq<bool>, k: int, m: int)
    ensures
        held(v, active, fin, k, m) >= 0,
    decreases m,
{
    if m > 0 {
        lemma_held_nonneg(v, active, fin, k, m - 1);
    }
}

pub proof fn lemma_held_zero(v: DeadlockView, active: Seq<usize>, fin: Seq<bool>, k: int, m: int)
    requires
        0 <= m <= fin.len(),
        forall|q: int| 0 <= q < fin.len() ==> !#[trigger] fin[q],
    ensures
        held(v, active, fin, k, m) == 0,
    decreases m,
{
    if m > 0 {
        lemma_held_zero(v, active, fin, k, m - 1);
    }
}


/// The indices of `active` that `order` lists, as marks.
pub open spec fn marks(n: nat, order: Seq<int>) -> Seq<bool> {
    Seq::new(n, |i: int| order.contains(i))
}

/// `order` lists distinct indices of `active`, and each listed thread can get what it
/// waits for (plus the requested unit, for `tid`) from the free units and those the
/// threads listed before it return.
pub open spec fn safe_steps(v: DeadlockView, active: Seq<usize>, tid: usize, sem: int, order: Seq<int>) -> bool {
    &&& forall|p: int| 0 <= p < order.len() ==> 0 <= #[trigger] order[p] < active.len()
    &&& order.no_duplicates()
    &&& forall|p: int| 0 <= p < order.len()
        ==> can_finish(v, active, marks(active.len(), order.take(p)), tid, sem, #[trigger] order[p])
}

/// A safe sequence: an order of all active threads in which each can finish in turn.
pub open spec fn safe_order(v: DeadlockView, active: Seq<usize>, tid: usize, sem: int, order: Seq<int>) -> bool {
    &&& safe_steps(v, active, tid, sem, order)
    &&& forall|i: int| 0 <= i < active.len() ==> #[trigger] order.contains(i)
}

/// Finished threads return units: more finished threads leave at least as many free.
proof fn lemma_work_mono(v: DeadlockView, active: Seq<usize>, a: Seq<bool>, b: Seq<bool>, tid: usize, sem: int, i: int)
    requires
        a.len() == active.len(),
        b.len() == active.len(),
        subset(a, b),
        can_finish(v, active, a, tid, sem, i),
    ensures
        can_finish(v, active, b, tid, sem, i),
{
    assert forall|k: int| 0 <= k < width(v) implies #[trigger] requested(v, active[i], tid, sem, k) <= work(v, active, b, k) by {
        lemma_held_mono(v, active, a, b, k, active.len() as int);
    }
}

/// Every thread a safe sequence lists lies in every closed set.
proof fn lemma_safe_prefix_closed(v: DeadlockView, active: Seq<usize>, tid: usize, sem: int, order: Seq<int>, fin: Seq<bool>, p: int)
    requires
        safe_steps(v, active, tid, sem, order),
        closed(v, active, fin, tid, sem),
        0 <= p <= order.len(),
    ensures
        forall|q: int| 0 <= q < p ==> fin[#[trigger] order[q]],
    decreases p,
{
    if p > 0 {
        lemma_safe_prefix_closed(v, active, tid, sem, order, fin, p - 1);
        let m = marks(active.len(), order.take(p - 1));
        assert(subset(m, fin)) by {
            assert forall|j: int| 0 <= j < m.len() && #[trigger] m[j] implies fin[j] by {
                let q = choose|q: int| 0 <= q < order.take(p - 1).len() && #[trigger] order.take(p - 1)[q] == j;
                assert(order[q] == j);
            }
        }
        assert(can_finish(v, active, m, tid, sem, order[p - 1]));
        lemma_work_mono(v, active, m, fin, tid, sem, order[p - 1]);
    }
}

/// Extends a partial safe sequence until it lists every active thread.
proof fn lemma_extend_safe(v: DeadlockView, active: Seq<usize>, tid: usize, sem: int, order: Seq<int>) -> (full: Seq<int>)
    requires
        0 <= sem < width(v),
        !unsafe_request(v, active, tid, sem),
        safe_steps(v, active, tid, sem, order),
    ensures
        safe_order(v, active, tid, sem, full),
    decreases count_false(marks(active.len(), order)),
{
    let n = active.len();
    let fin = marks(n, order);
    if forall|i: int| 0 <= i < n ==> #[trigger] fin[i] {
        assert forall|i: int| 0 <= i < n implies #[trigger] order.contains(i) by {
            assert(fin[i]);
        }
        order
    } else {
        let u = choose|i: int| 0 <= i < n && !#[trigger] fin[i];
        if closed(v, active, fin, tid, sem) {
            assert(closed(v, active, fin, tid, sem) && exists|i: int| 0 <= i < active.len() && !#[trigger] fin[i]);
            assert(false);
        }
        let i = choose|i: int| 0 <= i < active.len() && #[trigger] can_finish(v, active, fin, tid, sem, i) && !fin[i];
        let next = order.push(i);
        assert(!order.contains(i));
        assert forall|p: int| 0 <= p < next.len() implies 0 <= #[trigger] next[p] < active.len() by {
            if p < order.len() {
                assert(next[p] == order[p]);
            }
        }
        assert(next.no_duplicates()) by {
            assert forall|a: int, b: int| 0 <= a < next.len() && 0 <= b < next.len() && a != b implies next[a] != next[b] by {
                if a < order.len() && b < order.len() {
                } else if a < order.len() {
                    assert(order.contains(next[a]));
                } else if b < order.len() {
                    assert(order.contains(next[b]));
                }
            }
        }
        assert forall|p: int| 0 <= p < next.len()
            implies can_finish(v, active, marks(active.len(), next.take(p)), tid, sem, #[trigger] next[p]) by {
            if p < order.len() {
                assert(next.take(p) =~= order.take(p));
                assert(next[p] == order[p]);
            } else {
                assert(next.take(p) =~= order);
            }
        }
        assert(marks(n, next) =~= fin.update(i, true)) by {
            assert forall|j: int| 0 <= j < n implies marks(n, next)[j] == fin.update(i, true)[j] by {
                if j == i {
                    assert(next[order.len() as int] == i);
                } else if next.contains(j) {
                    let q = choose|q: int| 0 <= q < next.len() && #[trigger] next[q] == j;
                    assert(q < order.len());
                    assert(order[q] == j);
                } else if order.contains(j) {
                    let q = choose|q: int| 0 <= q < order.len() && #[trigger] order[q] == j;
                    assert(next[q] == j);
                }
            }
        }
        lemma_count_false_update(fin, i);
        lemma_extend_safe(v, active, tid, sem, next)
    }
}

/// The safety check is the banker's algorithm: granting `tid` one more unit of
/// semaphore `sem` is refused exactly when no order of the active threads lets each
/// of them, in turn, get what it waits for from the free units and those returned by
/// the threads before it.
pub proof fn law_safe_sequence(v: DeadlockView, active: Seq<usize>, tid: usize, sem: int)
    requires
        0 <= sem < width(v),
    ensures
        !unsafe_request(v, active, tid, sem) <==> exists|order: Seq<int>| #[trigger] safe_order(v, active, tid, sem, order),
{
    if !unsafe_request(v, active, tid, sem) {
        let empty = Seq::<int>::empty();
        assert(safe_steps(v, active, tid, sem, empty));
        let full = lemma_extend_safe(v, active, tid, sem, empty);
        assert(safe_order(v, active, tid, sem, full));
    } else {
        if exists|order: Seq<int>| #[trigger] safe_order(v, active, tid, sem, order) {
            let order = choose|order: Seq<int>| #[trigger] safe_order(v, active, tid, sem, order);
            let fin = choose|fin: Seq<bool>| #[trigger] closed(v, active, fin, tid, sem)
                && exists|i: int| 0 <= i < active.len() && !#[trigger] fin[i];
            let i = choose|i: int| 0 <= i < active.len() && !#[trigger] fin[i];
            lemma_safe_prefix_closed(v, active, tid, sem, order, fin, order.len() as int);
            assert(order.contains(i));
            let q = choose|q: int| 0 <= q < order.len() && #[trigger] order[q] == i;
            assert(fin[order[q]]);
        }
    }
}

} // verus!
