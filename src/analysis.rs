//! Priority ceilings, blocking, busy period, interference and response times.
use vstd::prelude::*;
use crate::model::{nested, targets, span, AnalysisError, PreemptionMode, Schedulable, Task, Trace};

verus! {

/// The largest value of a `u32`, as an integer.
pub open spec fn u32_max() -> int {
    0xffff_ffff
}

/// The first task among `tasks[0..n]` whose priority exceeds `floor` and whose
/// inter-arrival time is zero, reported as an error; `None` when there is none.
pub open spec fn first_zero_arrival(tasks: Seq<Task>, floor: int, n: int) -> Option<AnalysisError>
    decreases n,
{
    if n <= 0 {
        None
    } else {
        match first_zero_arrival(tasks, floor, n - 1) {
            Some(e) => Some(e),
            None => if tasks[n - 1].prio > floor && tasks[n - 1].inter_arrival == 0 {
                Some(AnalysisError::ZeroInterArrival(tasks[n - 1].id))
            } else {
                None
            },
        }
    }
}

/// Every critical section nested in a task of priority below `prio` ends no
/// earlier than it starts: the traces that blocking reads.
pub open spec fn sections_valid_below(prio: u8, tasks: Seq<Task>) -> bool {
    forall|i: int, j: int|
        0 <= i < tasks.len() && (#[trigger] tasks[i]).prio < prio && 0 <= j < nested(tasks[i].trace).len()
            ==> (#[trigger] nested(tasks[i].trace)[j]).start <= nested(tasks[i].trace)[j].end
}

/// The root trace of every task of priority at least `prio` ends no earlier
/// than it starts: the traces that the busy window reads.
pub open spec fn roots_valid_from(prio: u8, tasks: Seq<Task>) -> bool {
    forall|i: int| 0 <= i < tasks.len() && (#[trigger] tasks[i]).prio >= prio ==> tasks[i].trace.start <= tasks[i].trace.end
}

/// Some task has a priority above `prio`.
pub open spec fn has_higher(prio: u8, tasks: Seq<Task>) -> bool {
    exists|i: int| 0 <= i < tasks.len() && (#[trigger] tasks[i]).prio > prio
}

/// Whether some trace nested in `task` holds the resource `id`.
pub open spec fn accesses(task: Task, id: Seq<char>) -> bool {
    exists|j: int| 0 <= j < nested(task.trace).len() && (#[trigger] nested(task.trace)[j]).id@ == id
}

/// The highest priority among `tasks[0..n]` that access `id`, or -1 if none does.
pub open spec fn top_accessor(id: Seq<char>, tasks: Seq<Task>, n: int) -> int
    decreases n,
{
    if n <= 0 {
        -1
    } else {
        let rest = top_accessor(id, tasks, n - 1);
        let t = tasks[n - 1];
        if accesses(t, id) && t.prio > rest {
            t.prio as int
        } else {
            rest
        }
    }
}

/// The priority ceiling of resource `id`: the highest priority of a task that
/// accesses it, or 1 when no task does.
pub open spec fn ceiling(id: Seq<char>, tasks: Seq<Task>) -> u8 {
    let top = top_accessor(id, tasks, tasks.len() as int);
    if top < 0 {
        1
    } else {
        top as u8
    }
}

/// Once a zero inter-arrival time has been found among the first `i` tasks,
/// looking at more tasks reports the same one.
proof fn lemma_first_zero_stable(tasks: Seq<Task>, floor: int, i: int, n: int)
    requires
        0 <= i <= n,
        first_zero_arrival(tasks, floor, i) is Some,
    ensures
        first_zero_arrival(tasks, floor, n) == first_zero_arrival(tasks, floor, i),
    decreases n - i,
{
    if n > i {
        lemma_first_zero_stable(tasks, floor, i, n - 1);
    }
}

/// With no task accessing `id`, no accessor priority is found.
proof fn lemma_no_accessor(id: Seq<char>, tasks: Seq<Task>, n: int)
    requires
        n <= tasks.len(),
        forall|i: int| 0 <= i < tasks.len() ==> !accesses(#[trigger] tasks[i], id),
    ensures
        top_accessor(id, tasks, n) == -1,
    decreases n,
{
    if n > 0 {
        lemma_no_accessor(id, tasks, n - 1);
        assert(!accesses(tasks[n - 1], id));
    }
}

/// A zero inter-arrival time anywhere among `tasks[0..n]` above `floor` is
/// reported.
proof fn lemma_zero_arrival_found(tasks: Seq<Task>, floor: int, n: int, i: int)
    requires
        0 <= i < n <= tasks.len(),
        tasks[i].inter_arrival == 0,
        tasks[i].prio > floor,
    ensures
        first_zero_arrival(tasks, floor, n) matches Some(AnalysisError::ZeroInterArrival(_)),
    decreases n,
{
    if i < n - 1 {
        lemma_zero_arrival_found(tasks, floor, n - 1, i);
    } else {
        lemma_zero_arrival_shape(tasks, floor, n - 1);
    }
}

/// What is reported for a zero inter-arrival time is always that error.
proof fn lemma_zero_arrival_shape(tasks: Seq<Task>, floor: int, n: int)
    ensures
        first_zero_arrival(tasks, floor, n) is None || first_zero_arrival(tasks, floor, n) matches Some(
            AnalysisError::ZeroInterArrival(_),
        ),
    decreases n,
{
    if n > 0 {
        lemma_zero_arrival_shape(tasks, floor, n - 1);
    }
}

/// No task among the first `n` above `floor` has a zero inter-arrival time
/// when none is reported.
proof fn lemma_no_zero_arrival(tasks: Seq<Task>, floor: int, n: int, i: int)
    requires
        0 <= i < n <= tasks.len(),
        first_zero_arrival(tasks, floor, n) is None,
        tasks[i].prio > floor,
    ensures
        tasks[i].inter_arrival != 0,
    decreases n,
{
    if i < n - 1 {
        lemma_no_zero_arrival(tasks, floor, n - 1, i);
    }
}

/// With no zero inter-arrival time reported, every task's is positive.
pub proof fn lemma_arrival_positive(tasks: Seq<Task>, i: int)
    requires
        0 <= i < tasks.len(),
        first_zero_arrival(tasks, -1, tasks.len() as int) is None,
    ensures
        tasks[i].inter_arrival > 0,
{
    lemma_no_zero_arrival(tasks, -1, tasks.len() as int, i);
}

/// The first task above priority `floor` with a zero inter-arrival time.
fn find_zero_arrival(tasks: &[Task], floor: i16) -> (r: Option<AnalysisError>)
    ensures
        r == first_zero_arrival(tasks@, floor as int, tasks@.len() as int),
{
    let mut i: usize = 0;
    while i < tasks.len()
        invariant
            i <= tasks@.len(),
            first_zero_arrival(tasks@, floor as int, i as int) is None,
        decreases tasks@.len() - i,
    {
        if tasks[i].prio as i16 > floor && tasks[i].inter_arrival == 0 {
            proof {
                lemma_first_zero_stable(tasks@, floor as int, i + 1, tasks@.len() as int);
            }
            return Some(AnalysisError::ZeroInterArrival(tasks[i].id.clone()));
        }
        i += 1;
    }
    None
}

/// Whether every critical section of every task below `prio` is valid.
fn check_sections_below(prio: u8, tasks: &[Task]) -> (r: bool)
    ensures
        r == sections_valid_below(prio, tasks@),
{
    let mut i: usize = 0;
    while i < tasks.len()
        invariant
            i <= tasks@.len(),
            forall|a: int, j: int|
                0 <= a < i && (#[trigger] tasks@[a]).prio < prio && 0 <= j < nested(tasks@[a].trace).len()
                    ==> (#[trigger] nested(tasks@[a].trace)[j]).start <= nested(tasks@[a].trace)[j].end,
        decreases tasks@.len() - i,
    {
        if tasks[i].prio < prio {
            let rs = tasks[i].resources();
            let mut k: usize = 0;
            while k < rs.len()
                invariant
                    i < tasks@.len(),
                    tasks@[i as int].prio < prio,
                    forall|a: int, j: int|
                        0 <= a < i && (#[trigger] tasks@[a]).prio < prio && 0 <= j < nested(tasks@[a].trace).len()
                            ==> (#[trigger] nested(tasks@[a].trace)[j]).start <= nested(tasks@[a].trace)[j].end,
                    targets(rs@) == nested(tasks@[i as int].trace),
                    k <= rs@.len(),
                    forall|j: int| 0 <= j < k ==> (#[trigger] nested(tasks@[i as int].trace)[j]).start <= nested(tasks@[i as int].trace)[j].end,
                decreases rs@.len() - k,
            {
                assert(nested(tasks@[i as int].trace)[k as int] == *rs@[k as int]);
                if rs[k].end < rs[k].start {
                    assert(tasks@[i as int].prio < prio);
                    assert(!((nested(tasks@[i as int].trace)[k as int]).start <= nested(tasks@[i as int].trace)[k as int].end));
                    return false;
                }
                k += 1;
            }
        }
        i += 1;
    }
    true
}

/// Whether the root trace of every task of priority at least `prio` is valid.
fn check_roots_from(prio: u8, tasks: &[Task]) -> (r: bool)
    ensures
        r == roots_valid_from(prio, tasks@),
{
    let mut i: usize = 0;
    while i < tasks.len()
        invariant
            i <= tasks@.len(),
            forall|a: int| 0 <= a < i && (#[trigger] tasks@[a]).prio >= prio ==> tasks@[a].trace.start <= tasks@[a].trace.end,
        decreases tasks@.len() - i,
    {
        if tasks[i].prio >= prio && tasks[i].trace.end < tasks[i].trace.start {
            return false;
        }
        i += 1;
    }
    true
}

/// Whether some task has a priority above `prio`.
fn any_higher(prio: u8, tasks: &[Task]) -> (r: bool)
    ensures
        r == has_higher(prio, tasks@),
{
    let mut i: usize = 0;
    while i < tasks.len()
        invariant
            i <= tasks@.len(),
            forall|a: int| 0 <= a < i ==> (#[trigger] tasks@[a]).prio <= prio,
        decreases tasks@.len() - i,
    {
        if tasks[i].prio > prio {
            return true;
        }
        i += 1;
    }
    false
}

/// Whether any trace nested in `task` holds the resource named `id`.
fn task_accesses(task: &Task, id: &String) -> (r: bool)
    ensures
        r == accesses(*task, id@),
{
    let rs = task.resources();
    let mut k: usize = 0;
    while k < rs.len()
        invariant
            targets(rs@) == nested(task.trace),
            k <= rs@.len(),
            forall|j: int| 0 <= j < k ==> (#[trigger] nested(task.trace)[j]).id@ != id@,
        decreases rs@.len() - k,
    {
        assert(nested(task.trace)[k as int] == *rs@[k as int]);
        if rs[k].id == *id {
            return true;
        }
        k += 1;
    }
    false
}

/// Ceiling computation for resources.
pub trait TraceSchedulable: Schedulable {
    /// The priority ceiling of the resource this trace holds, over `tasks`.
    fn ceiling_priority(&self, tasks: &[Task]) -> (r: u8)
        ensures
            r == ceiling(self.root().id@, tasks@),
            (forall|i: int| 0 <= i < tasks@.len() ==> !accesses(#[trigger] tasks@[i], self.root().id@)) ==> r == 1,
    ;
}

impl TraceSchedulable for Trace {
    fn ceiling_priority(&self, tasks: &[Task]) -> (r: u8) {
        proof {
            if forall|i: int| 0 <= i < tasks@.len() ==> !accesses(#[trigger] tasks@[i], self.id@) {
                lemma_no_accessor(self.id@, tasks@, tasks@.len() as int);
            }
        }
        let mut top: i16 = -1;
        let mut i: usize = 0;
        while i < tasks.len()
            invariant
                i <= tasks@.len(),
                top == top_accessor(self.id@, tasks@, i as int),
                -1 <= top <= 255,
            decreases tasks@.len() - i,
        {
            if task_accesses(&tasks[i], &self.id) && tasks[i].prio as i16 > top {
                top = tasks[i].prio as i16;
            }
            i += 1;
        }
        if top < 0 {
            1
        } else {
            top as u8
        }
    }
}

/// The longest critical section among `rs[0..n]` whose resource ceiling is at
/// least `prio`; 0 when there is none.
pub open spec fn longest_blocking_section(rs: Seq<Trace>, tasks: Seq<Task>, prio: u8, n: int) -> int
    decreases n,
{
    if n <= 0 {
        0
    } else {
        let m = longest_blocking_section(rs, tasks, prio, n - 1);
        let r = rs[n - 1];
        if ceiling(r.id@, tasks) >= prio && span(r) > m {
            span(r)
        } else {
            m
        }
    }
}

/// The blocking a task of priority `prio` can suffer from the tasks in
/// `tasks[0..n]` of lower priority.
pub open spec fn blocking_upto(tasks: Seq<Task>, prio: u8, n: int) -> int
    decreases n,
{
    if n <= 0 {
        0
    } else {
        let m = blocking_upto(tasks, prio, n - 1);
        let l = tasks[n - 1];
        let rs = nested(l.trace);
        let b = longest_blocking_section(rs, tasks, prio, rs.len() as int);
        if l.prio < prio && b > m {
            b
        } else {
            m
        }
    }
}

/// B(t): the longest critical section of a lower-priority task whose resource
/// ceiling is at least `prio`, or 0.
pub open spec fn blocking(prio: u8, tasks: Seq<Task>) -> int {
    blocking_upto(tasks, prio, tasks.len() as int)
}

/// The summed execution time of the tasks in `tasks[0..n]` whose priority is
/// at least `prio`.
pub open spec fn busy_upto(tasks: Seq<Task>, prio: u8, n: int) -> int
    decreases n,
{
    if n <= 0 {
        0
    } else {
        let t = tasks[n - 1];
        busy_upto(tasks, prio, n - 1) + if t.prio >= prio {
            span(t.trace)
        } else {
            0
        }
    }
}

/// The busy window of a task of priority `prio`: the execution time of every
/// task of the same or a higher priority.
pub open spec fn busy(prio: u8, tasks: Seq<Task>) -> int {
    busy_upto(tasks, prio, tasks.len() as int)
}

/// `a / b` rounded up, for positive `b`.
pub open spec fn ceil_div(a: int, b: int) -> int {
    (a + b - 1) / b
}

/// The interference over `tasks[0..n]` on a task of priority `prio` whose busy
/// window is `window`.
pub open spec fn interference_upto(tasks: Seq<Task>, prio: u8, window: int, n: int) -> int
    decreases n,
{
    if n <= 0 {
        0
    } else {
        let h = tasks[n - 1];
        interference_upto(tasks, prio, window, n - 1) + if h.prio > prio {
            span(h.trace) * ceil_div(window, h.inter_arrival as int)
        } else {
            0
        }
    }
}

/// I(t): for each task of higher priority, its execution time times the number
/// of its activations that fit, rounded up, into the busy window.
pub open spec fn interference(prio: u8, tasks: Seq<Task>) -> int {
    interference_upto(tasks, prio, busy(prio, tasks), tasks.len() as int)
}

/// What `blocking_time` returns: B(t), or `InvalidTrace` when a critical
/// section of a lower-priority task ends before it starts.
pub open spec fn blocking_result(t: Task, tasks: Seq<Task>) -> Result<u32, AnalysisError> {
    if sections_valid_below(t.prio, tasks) {
        Ok(blocking(t.prio, tasks) as u32)
    } else {
        Err(AnalysisError::InvalidTrace)
    }
}

/// What `busy_period` returns: the window, `InvalidTrace` when the root trace
/// of a task of the same or a higher priority is invalid, `Overflow` when the
/// sum exceeds 32 bits.
pub open spec fn busy_result(t: Task, tasks: Seq<Task>) -> Result<u32, AnalysisError> {
    if !roots_valid_from(t.prio, tasks) {
        Err(AnalysisError::InvalidTrace)
    } else if busy(t.prio, tasks) > u32_max() {
        Err(AnalysisError::Overflow)
    } else {
        Ok(busy(t.prio, tasks) as u32)
    }
}

/// What `interference` returns: 0 when no task has a higher priority;
/// otherwise the error of the busy window, then the first higher-priority task
/// with a zero inter-arrival time, then `Overflow` when I(t) exceeds 32 bits.
pub open spec fn interference_result(t: Task, tasks: Seq<Task>) -> Result<u32, AnalysisError> {
    if !has_higher(t.prio, tasks) {
        Ok(0)
    } else {
        match busy_result(t, tasks) {
            Err(e) => Err(e),
            Ok(_) => match first_zero_arrival(tasks, t.prio as int, tasks.len() as int) {
                Some(e) => Err(e),
                None => if interference(t.prio, tasks) > u32_max() {
                    Err(AnalysisError::Overflow)
                } else {
                    Ok(interference(t.prio, tasks) as u32)
                },
            },
        }
    }
}

/// The smaller of `a` and `b`.
pub open spec fn min(a: int, b: int) -> int {
    if a <= b {
        a
    } else {
        b
    }
}

/// The longest critical section of `rs` that can block priority `prio`.
fn longest_section_of(rs: &Vec<&Trace>, tasks: &[Task], prio: u8) -> (r: u32)
    requires
        forall|j: int| 0 <= j < rs@.len() ==> (#[trigger] rs@[j]).start <= rs@[j].end,
    ensures
        r == longest_blocking_section(targets(rs@), tasks@, prio, rs@.len() as int),
{
    let ghost ts = targets(rs@);
    let mut best: u32 = 0;
    let mut k: usize = 0;
    while k < rs.len()
        invariant
            ts == targets(rs@),
            k <= rs@.len(),
            forall|j: int| 0 <= j < rs@.len() ==> (#[trigger] rs@[j]).start <= rs@[j].end,
            best == longest_blocking_section(ts, tasks@, prio, k as int),
        decreases rs@.len() - k,
    {
        let r = rs[k];
        assert(ts[k as int] == *r);
        let c = r.ceiling_priority(tasks);
        let w = r.end - r.start;
        if c >= prio && w > best {
            best = w;
        }
        k += 1;
    }
    best
}

/// B(t) for priority `prio`, when every critical section it reads is valid.
fn blocking_of(prio: u8, tasks: &[Task]) -> (r: u32)
    requires
        sections_valid_below(prio, tasks@),
    ensures
        r == blocking(prio, tasks@),
{
    let mut best: u32 = 0;
    let mut i: usize = 0;
    while i < tasks.len()
        invariant
            sections_valid_below(prio, tasks@),
            i <= tasks@.len(),
            best == blocking_upto(tasks@, prio, i as int),
        decreases tasks@.len() - i,
    {
        let l = &tasks[i];
        if l.prio < prio {
            let rs = l.resources();
            assert forall|j: int| 0 <= j < rs@.len() implies (#[trigger] rs@[j]).start <= rs@[j].end by {
                assert(nested(tasks@[i as int].trace)[j] == *rs@[j]);
            }
            let b = longest_section_of(&rs, tasks, prio);
            if b > best {
                best = b;
            }
        }
        i += 1;
    }
    best
}

/// The busy window of priority `prio`, saturated at 2^32.
fn busy_of(prio: u8, tasks: &[Task]) -> (r: u64)
    requires
        roots_valid_from(prio, tasks@),
    ensures
        r == min(busy(prio, tasks@), u32_max() + 1),
        busy(prio, tasks@) >= 0,
{
    let mut acc: u64 = 0;
    let mut i: usize = 0;
    while i < tasks.len()
        invariant
            roots_valid_from(prio, tasks@),
            i <= tasks@.len(),
            busy_upto(tasks@, prio, i as int) >= 0,
            acc == min(busy_upto(tasks@, prio, i as int), u32_max() + 1),
        decreases tasks@.len() - i,
    {
        let t = &tasks[i];
        if t.prio >= prio {
            assert(tasks@[i as int].trace.start <= tasks@[i as int].trace.end);
            let w = t.trace.end - t.trace.start;
            acc = acc + w as u64;
            if acc > 0x1_0000_0000 {
                acc = 0x1_0000_0000;
            }
        }
        i += 1;
    }
    acc
}

/// The interference on priority `prio` for a busy window `window`, saturated
/// at 2^32.
fn interference_of(prio: u8, window: u32, tasks: &[Task]) -> (r: u128)
    requires
        roots_valid_from(prio, tasks@),
        first_zero_arrival(tasks@, prio as int, tasks@.len() as int) is None,
    ensures
        r == min(interference_upto(tasks@, prio, window as int, tasks@.len() as int), u32_max() + 1),
{
    let mut acc: u128 = 0;
    let mut i: usize = 0;
    while i < tasks.len()
        invariant
            roots_valid_from(prio, tasks@),
            first_zero_arrival(tasks@, prio as int, tasks@.len() as int) is None,
            i <= tasks@.len(),
            interference_upto(tasks@, prio, window as int, i as int) >= 0,
            acc == min(interference_upto(tasks@, prio, window as int, i as int), u32_max() + 1),
        decreases tasks@.len() - i,
    {
        let h = &tasks[i];
        if h.prio > prio {
            proof {
                assert(tasks@[i as int].trace.start <= tasks@[i as int].trace.end);
                lemma_no_zero_arrival(tasks@, prio as int, tasks@.len() as int, i as int);
            }
            let w = (h.trace.end - h.trace.start) as u128;
            let a = h.inter_arrival as u128;
            let x = window as u128 + a - 1;
            let q = x / a;
            proof {
                vstd::arithmetic::div_mod::lemma_div_is_ordered_by_denominator(x as int, 1, a as int);
                assert(q <= x);
                assert(w * q <= 0xffff_ffff * 0x1_ffff_ffff) by (nonlinear_arith)
                    requires
                        w <= 0xffff_ffff,
                        q <= 0x1_ffff_ffff,
                ;
                assert(w * q >= 0) by (nonlinear_arith)
                    requires
                        w >= 0,
                        q >= 0,
                ;
            }
            acc = acc + w * q;
            if acc > 0x1_0000_0000 {
                acc = 0x1_0000_0000;
            }
        }
        i += 1;
    }
    acc
}

/// The exact response time of `t`: blocking plus its own execution plus the
/// exact response time of every task of higher priority, failing when that
/// exceeds `t`'s deadline, when a trace it reads is invalid, or when a
/// higher-priority task fails.
pub open spec fn exact_total(t: Task, tasks: Seq<Task>) -> Result<int, AnalysisError>
    decreases 256 - t.prio, tasks.len() + 1,
{
    if !sections_valid_below(t.prio, tasks) || t.trace.end < t.trace.start {
        Err(AnalysisError::InvalidTrace)
    } else {
        match exact_sum(tasks, t.prio, tasks.len() as int) {
            Err(e) => Err(e),
            Ok(s) => {
                let total = blocking(t.prio, tasks) + span(t.trace) + s;
                if total > t.deadline {
                    Err(AnalysisError::DeadlineMissed)
                } else {
                    Ok(total)
                }
            },
        }
    }
}

/// The summed exact response times of the tasks in `tasks[0..n]` whose
/// priority exceeds `prio`; the first failure among them, in order, if any.
pub open spec fn exact_sum(tasks: Seq<Task>, prio: u8, n: int) -> Result<int, AnalysisError>
    decreases 256 - prio, n,
{
    if n <= 0 {
        Ok(0)
    } else {
        match exact_sum(tasks, prio, n - 1) {
            Err(e) => Err(e),
            Ok(s) => {
                let h = tasks[n - 1];
                if h.prio > prio {
                    match exact_total(h, tasks) {
                        Err(e) => Err(e),
                        Ok(v) => Ok(s + v),
                    }
                } else {
                    Ok(s)
                }
            },
        }
    }
}

/// What `response_time` returns. Approximate: B(t) + C(t) + I(t), passing on
/// the first of their errors and failing with `Overflow` past 32 bits. Exact:
/// the exact response time.
pub open spec fn response_result(t: Task, tasks: Seq<Task>, mode: PreemptionMode) -> Result<u32, AnalysisError> {
    match mode {
        PreemptionMode::Approximate => match blocking_result(t, tasks) {
            Err(e) => Err(e),
            Ok(b) => if t.trace.end < t.trace.start {
                Err(AnalysisError::InvalidTrace)
            } else {
                match interference_result(t, tasks) {
                    Err(e) => Err(e),
                    Ok(i) => if b + span(t.trace) + i > u32_max() {
                        Err(AnalysisError::Overflow)
                    } else {
                        Ok((b + span(t.trace) + i) as u32)
                    },
                }
            },
        },
        PreemptionMode::Exact => match exact_total(t, tasks) {
            Err(e) => Err(e),
            Ok(v) => Ok(v as u32),
        },
    }
}

/// The exact response time of `t`.
fn exact_response(t: &Task, tasks: &[Task]) -> (r: Result<u32, AnalysisError>)
    ensures
        match exact_total(*t, tasks@) {
            Err(e) => r == Err::<u32, AnalysisError>(e),
            Ok(v) => 0 <= v <= t.deadline && r == Ok::<u32, AnalysisError>(v as u32),
        },
    decreases 256 - t.prio,
{
    if !check_sections_below(t.prio, tasks) || t.trace.end < t.trace.start {
        return Err(AnalysisError::InvalidTrace);
    }
    let b = blocking_of(t.prio, tasks);
    let c = t.trace.end - t.trace.start;
    let mut acc: u64 = 0;
    let mut i: usize = 0;
    while i < tasks.len()
        invariant
            i <= tasks@.len(),
            sections_valid_below(t.prio, tasks@),
            t.trace.start <= t.trace.end,
            exact_sum(tasks@, t.prio, i as int) is Ok,
            match exact_sum(tasks@, t.prio, i as int) {
                Ok(s) => s >= 0 && acc == min(s, u32_max() + 1),
                Err(_) => false,
            },
        decreases tasks@.len() - i,
    {
        let h = &tasks[i];
        if h.prio > t.prio {
            match exact_response(h, tasks) {
                Err(e) => {
                    proof {
                        lemma_exact_sum_fails_on(tasks@, t.prio, i as int + 1, tasks@.len() as int);
                    }
                    return Err(e);
                },
                Ok(v) => {
                    acc = acc + v as u64;
                    if acc > 0x1_0000_0000 {
                        acc = 0x1_0000_0000;
                    }
                },
            }
        }
        i += 1;
    }
    let total = b as u64 + c as u64 + acc;
    if total > t.deadline as u64 {
        Err(AnalysisError::DeadlineMissed)
    } else {
        Ok(total as u32)
    }
}

/// Once the sum over a prefix has failed, the sum over a longer prefix fails
/// in the same way.
proof fn lemma_exact_sum_fails_on(tasks: Seq<Task>, prio: u8, i: int, n: int)
    requires
        0 <= i <= n,
        exact_sum(tasks, prio, i) is Err,
    ensures
        exact_sum(tasks, prio, n) == exact_sum(tasks, prio, i),
    decreases n - i,
{
    if n > i {
        lemma_exact_sum_fails_on(tasks, prio, i, n - 1);
    }
}

/// Blocking, load and response-time analysis of a task against its task set.
pub trait TaskSchedulable: Schedulable {
    /// The task this value describes.
    spec fn task(&self) -> Task;

    /// B(t): the worst-case blocking from lower-priority resource holders.
    fn blocking_time(&self, tasks: &[Task]) -> (r: Result<u32, AnalysisError>)
        ensures
            r == blocking_result(self.task(), tasks@),
    ;

    /// The execution time of all tasks of the same or a higher priority.
    fn busy_period(&self, tasks: &[Task]) -> (r: Result<u32, AnalysisError>)
        ensures
            r == busy_result(self.task(), tasks@),
    ;

    /// I(t): the preemption delay from higher-priority tasks.
    fn interference(&self, tasks: &[Task]) -> (r: Result<u32, AnalysisError>)
        ensures
            r == interference_result(self.task(), tasks@),
    ;

    /// R(t) in the given mode.
    fn response_time(&self, tasks: &[Task], mode: &PreemptionMode) -> (r: Result<u32, AnalysisError>)
        ensures
            r == response_result(self.task(), tasks@, *mode),
    ;
}

impl TaskSchedulable for Task {
    open spec fn task(&self) -> Task {
        *self
    }

    fn blocking_time(&self, tasks: &[Task]) -> (r: Result<u32, AnalysisError>) {
        if !check_sections_below(self.prio, tasks) {
            return Err(AnalysisError::InvalidTrace);
        }
        Ok(blocking_of(self.prio, tasks))
    }

    fn busy_period(&self, tasks: &[Task]) -> (r: Result<u32, AnalysisError>) {
        if !check_roots_from(self.prio, tasks) {
            return Err(AnalysisError::InvalidTrace);
        }
        let b = busy_of(self.prio, tasks);
        if b > 0xffff_ffff {
            Err(AnalysisError::Overflow)
        } else {
            Ok(b as u32)
        }
    }

    fn interference(&self, tasks: &[Task]) -> (r: Result<u32, AnalysisError>) {
        if !any_higher(self.prio, tasks) {
            return Ok(0);
        }
        if !check_roots_from(self.prio, tasks) {
            return Err(AnalysisError::InvalidTrace);
        }
        let window = busy_of(self.prio, tasks);
        if window > 0xffff_ffff {
            return Err(AnalysisError::Overflow);
        }
        let b = window as u32;
        match find_zero_arrival(tasks, self.prio as i16) {
            Some(e) => return Err(e),
            None => {},
        }
        assert(roots_valid_from(self.prio, tasks@));
        assert(b as int == busy(self.prio, tasks@));
        let i = interference_of(self.prio, b, tasks);
        if i > 0xffff_ffff {
            Err(AnalysisError::Overflow)
        } else {
            Ok(i as u32)
        }
    }

    fn response_time(&self, tasks: &[Task], mode: &PreemptionMode) -> (r: Result<u32, AnalysisError>) {
        match mode {
            PreemptionMode::Approximate => {
                let b = self.blocking_time(tasks)?;
                if self.trace.end < self.trace.start {
                    return Err(AnalysisError::InvalidTrace);
                }
                let i = self.interference(tasks)?;
                let total = b as u64 + (self.trace.end - self.trace.start) as u64 + i as u64;
                if total > 0xffff_ffff {
                    Err(AnalysisError::Overflow)
                } else {
                    Ok(total as u32)
                }
            },
            PreemptionMode::Exact => exact_response(self, tasks),
        }
    }
}

/// The numerator of the summed utilisation of `tasks[0..n]` over the
/// denominator `load_den(tasks, n)`.
pub open spec fn load_num(tasks: Seq<Task>, n: int) -> int
    decreases n,
{
    if n <= 0 {
        0
    } else {
        let t = tasks[n - 1];
        load_num(tasks, n - 1) * t.inter_arrival + span(t.trace) * load_den(tasks, n - 1)
    }
}

/// The product of the inter-arrival times of `tasks[0..n]`.
pub open spec fn load_den(tasks: Seq<Task>, n: int) -> int
    decreases n,
{
    if n <= 0 {
        1
    } else {
        load_den(tasks, n - 1) * tasks[n - 1].inter_arrival
    }
}

/// The greatest common divisor, by Euclid's algorithm.
pub open spec fn gcd(a: nat, b: nat) -> nat
    decreases b,
{
    if b == 0 {
        a
    } else {
        gcd(b, (a % b) as nat)
    }
}

/// The running utilisation after `tasks[0..n]` as a fraction `(num, den)`,
/// each step adding C / A and dividing out the common factor.
pub open spec fn load_frac(tasks: Seq<Task>, n: int) -> (int, int)
    decreases n,
{
    if n <= 0 {
        (0, 1)
    } else {
        let prev = load_frac(tasks, n - 1);
        let t = tasks[n - 1];
        let x = prev.0 * t.inter_arrival + span(t.trace) * prev.1;
        let y = prev.1 * t.inter_arrival;
        let g = gcd(x as nat, y as nat) as int;
        (x / g, y / g)
    }
}

/// Every running fraction up to `tasks[0..n]` fits in 64 bits.
pub open spec fn load_fits(tasks: Seq<Task>, n: int) -> bool {
    forall|i: int| 0 <= i <= n ==> (#[trigger] load_frac(tasks, i)).0 <= u64::MAX && load_frac(tasks, i).1 <= u64::MAX
}

/// The total utilisation of a task set, the sum of C(t) / A(t), as the exact
/// fraction `num / den`.
#[derive(Debug, PartialEq, Eq)]
pub struct LoadFactor {
    pub num: u64,
    pub den: u64,
}

/// What `total_load_factor` returns: the first task with a zero inter-arrival
/// time, then `InvalidTrace` for an invalid root trace, then `Overflow` when a
/// reduced running fraction does not fit in 64 bits.
pub open spec fn load_result(tasks: Seq<Task>) -> Result<LoadFactor, AnalysisError> {
    let n = tasks.len() as int;
    match first_zero_arrival(tasks, -1, n) {
        Some(e) => Err(e),
        None => if !roots_valid_from(0, tasks) {
            Err(AnalysisError::InvalidTrace)
        } else if !load_fits(tasks, n) {
            Err(AnalysisError::Overflow)
        } else {
            Ok(LoadFactor { num: load_frac(tasks, n).0 as u64, den: load_frac(tasks, n).1 as u64 })
        },
    }
}

/// Euclid's algorithm gives a common divisor of both arguments, with the
/// quotients as witnesses.
pub proof fn lemma_gcd_divides(a: nat, b: nat) -> (k: (nat, nat))
    ensures
        a == k.0 * gcd(a, b),
        b == k.1 * gcd(a, b),
        a > 0 || b > 0 ==> gcd(a, b) > 0,
    decreases b,
{
    if b == 0 {
        assert(gcd(a, b) == a);
        (1, 0)
    } else {
        let r = (a % b) as nat;
        let k2 = lemma_gcd_divides(b, r);
        let g = gcd(b, r);
        assert(gcd(a, b) == g);
        vstd::arithmetic::div_mod::lemma_fundamental_div_mod(a as int, b as int);
        let q = (a / b) as nat;
        assert(a == (q * k2.0 + k2.1) * g) by (nonlinear_arith)
            requires
                a == b * q + r,
                b == k2.0 * g,
                r == k2.1 * g,
        ;
        assert(b > 0 ==> g > 0) by (nonlinear_arith)
            requires
                b == k2.0 * g,
        ;
        ((q * k2.0 + k2.1) as nat, k2.0)
    }
}

/// The greatest common divisor of two integers.
fn gcd_of(a: u128, b: u128) -> (r: u128)
    ensures
        r == gcd(a as nat, b as nat),
{
    let mut x = a;
    let mut y = b;
    while y != 0
        invariant
            gcd(x as nat, y as nat) == gcd(a as nat, b as nat),
        decreases y,
    {
        let z = x % y;
        x = y;
        y = z;
    }
    x
}

/// L = sum of C(t) / A(t) over the task set, as an exact fraction reduced at
/// every step.
pub fn total_load_factor(tasks: &[Task]) -> (r: Result<LoadFactor, AnalysisError>)
    ensures
        r == load_result(tasks@),
        (exists|i: int| 0 <= i < tasks@.len() && (#[trigger] tasks@[i]).inter_arrival == 0) ==> r matches Err(
            AnalysisError::ZeroInterArrival(_),
        ),
{
    proof {
        if exists|i: int| 0 <= i < tasks@.len() && (#[trigger] tasks@[i]).inter_arrival == 0 {
            let i = choose|i: int| 0 <= i < tasks@.len() && (#[trigger] tasks@[i]).inter_arrival == 0;
            lemma_zero_arrival_found(tasks@, -1, tasks@.len() as int, i);
        }
    }
    if let Some(e) = find_zero_arrival(tasks, -1) {
        return Err(e);
    }
    if !check_roots_from(0, tasks) {
        return Err(AnalysisError::InvalidTrace);
    }
    let mut num: u64 = 0;
    let mut den: u64 = 1;
    let mut i: usize = 0;
    assert(load_frac(tasks@, 0) == (0int, 1int));
    assert forall|j: int| 0 <= j < tasks@.len() implies (#[trigger] tasks@[j]).inter_arrival != 0 by {
        lemma_arrival_positive(tasks@, j);
    }
    while i < tasks.len()
        invariant
            forall|j: int| 0 <= j < tasks@.len() ==> (#[trigger] tasks@[j]).inter_arrival != 0,
            first_zero_arrival(tasks@, -1, tasks@.len() as int) is None,
            roots_valid_from(0, tasks@),
            i <= tasks@.len(),
            den >= 1,
            load_frac(tasks@, i as int) == (num as int, den as int),
            load_fits(tasks@, i as int),
        decreases tasks@.len() - i,
    {
        let t = &tasks[i];
        proof {
            lemma_no_zero_arrival(tasks@, -1, tasks@.len() as int, i as int);
            assert(tasks@[i as int].trace.start <= tasks@[i as int].trace.end);
        }
        let a = t.inter_arrival as u128;
        let w = (t.trace.end - t.trace.start) as u128;
        proof {
            assert(num * a + w * den <= 0xffff_ffff_ffff_ffff * 0xffff_ffff * 2) by (nonlinear_arith)
                requires
                    num <= 0xffff_ffff_ffff_ffff,
                    den <= 0xffff_ffff_ffff_ffff,
                    a <= 0xffff_ffff,
                    w <= 0xffff_ffff,
            ;
            assert(den * a >= 1 && den * a <= 0xffff_ffff_ffff_ffff * 0xffff_ffff) by (nonlinear_arith)
                requires
                    den >= 1,
                    a >= 1,
                    den <= 0xffff_ffff_ffff_ffff,
                    a <= 0xffff_ffff,
            ;
            assert(num * a >= 0 && w * den >= 0) by (nonlinear_arith)
                requires
                    num >= 0,
                    den >= 0,
                    a >= 0,
                    w >= 0,
            ;
        }
        let x = num as u128 * a + w * den as u128;
        let y = den as u128 * a;
        let g = gcd_of(x, y);
        let ghost k = lemma_gcd_divides(x as nat, y as nat);
        proof {
            assert(x / g == k.0 && y / g == k.1) by (nonlinear_arith)
                requires
                    x == k.0 * g,
                    y == k.1 * g,
                    g > 0,
            ;
            assert(k.1 >= 1) by (nonlinear_arith)
                requires
                    y == k.1 * g,
                    g > 0,
                    y >= 1,
            ;
        }
        let nx = x / g;
        let ny = y / g;
        proof {
            assert(load_frac(tasks@, i + 1) == (nx as int, ny as int));
        }
        if nx > u64::MAX as u128 || ny > u64::MAX as u128 {
            assert(!load_fits(tasks@, tasks@.len() as int)) by {
                assert(0 <= i + 1 <= tasks@.len());
                assert(load_frac(tasks@, i + 1).0 > u64::MAX || load_frac(tasks@, i + 1).1 > u64::MAX);
            }
            return Err(AnalysisError::Overflow);
        }
        num = nx as u64;
        den = ny as u64;
        i += 1;
        assert(load_fits(tasks@, i as int)) by {
            assert forall|j: int| 0 <= j <= i implies (#[trigger] load_frac(tasks@, j)).0 <= u64::MAX
                && load_frac(tasks@, j).1 <= u64::MAX by {
                if j < i {
                    assert(0 <= j <= i - 1);
                }
            }
        }
    }
    Ok(LoadFactor { num, den })
}

/// One line of an analysis report: the task, R(t), B(t), C(t) and I(t).
pub type TaskReport<'a> = (
    &'a Task,
    Result<u32, AnalysisError>,
    Result<u32, AnalysisError>,
    Result<u32, AnalysisError>,
    Result<u32, AnalysisError>,
);

/// Runs the analysis over every task of the set, in order, reporting for each
/// the task, R(t), B(t), C(t) and I(t).
pub fn srp_analyze<'a>(tasks: &'a [Task], mode: &PreemptionMode) -> (r: Vec<TaskReport<'a>>)
    ensures
        r@.len() == tasks@.len(),
        forall|i: int|
            0 <= i < tasks@.len() ==> {
                &&& *(#[trigger] r@[i]).0 == tasks@[i]
                &&& r@[i].1 == response_result(tasks@[i], tasks@, *mode)
                &&& r@[i].2 == blocking_result(tasks@[i], tasks@)
                &&& r@[i].3 == crate::model::wcet_result(tasks@[i].trace)
                &&& r@[i].4 == interference_result(tasks@[i], tasks@)
            },
{
    let mut out: Vec<TaskReport<'a>> = Vec::new();
    let mut i: usize = 0;
    while i < tasks.len()
        invariant
            i <= tasks@.len(),
            out@.len() == i,
            forall|j: int|
                0 <= j < i ==> {
                    &&& *(#[trigger] out@[j]).0 == tasks@[j]
                    &&& out@[j].1 == response_result(tasks@[j], tasks@, *mode)
                    &&& out@[j].2 == blocking_result(tasks@[j], tasks@)
                    &&& out@[j].3 == crate::model::wcet_result(tasks@[j].trace)
                    &&& out@[j].4 == interference_result(tasks@[j], tasks@)
                },
        decreases tasks@.len() - i,
    {
        let task = &tasks[i];
        let response = task.response_time(tasks, mode);
        let blocking = task.blocking_time(tasks);
        let execution = task.wcet();
        let interference = task.interference(tasks);
        out.push((task, response, blocking, execution, interference));
        i += 1;
    }
    out
}

} // verus!
