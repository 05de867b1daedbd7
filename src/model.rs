//! Timing model: tasks, their traces, and resource traversal.
use vstd::prelude::*;

verus! {

/// A half-open interval `[start, end)` of a task's execution, or a nested
/// critical section holding the resource named by `id`.
#[derive(Debug)]
pub struct Trace {
    pub id: String,
    pub start: u32,
    pub end: u32,
    pub inner: Vec<Trace>,
}

/// A periodic or sporadic task with a fixed priority (higher is more urgent).
#[derive(Debug)]
pub struct Task {
    pub id: String,
    pub prio: u8,
    pub deadline: u32,
    pub inter_arrival: u32,
    pub trace: Trace,
}

/// Which response-time formula to use.
#[derive(Debug, Clone, Copy, PartialEq, Eq, Structural)]
pub enum PreemptionMode {
    Exact,
    Approximate,
}

/// Why an analysis could not produce a number.
#[derive(Debug, PartialEq, Eq)]
pub enum AnalysisError {
    /// Some trace ends before it starts.
    InvalidTrace,
    /// The task with this id has a minimum inter-arrival time of zero.
    ZeroInterArrival(String),
    /// The exact response time exceeds the task's deadline.
    DeadlineMissed,
    /// A result does not fit in 32 bits.
    Overflow,
}

/// All traces nested inside the elements of `s`, at any depth: for each
/// element in order, its direct children followed by everything nested in
/// them.
pub open spec fn nested_all(s: Seq<Trace>) -> Seq<Trace>
    decreases s,
{
    if s.len() == 0 {
        Seq::empty()
    } else {
        let last = s[s.len() - 1];
        nested_all(s.subrange(0, s.len() - 1)) + (last.inner@ + nested_all(last.inner@))
    }
}

/// The traces nested inside `t`, excluding `t`: first its direct children in
/// declaration order, then, child by child, everything nested in each.
pub open spec fn nested(t: Trace) -> Seq<Trace> {
    t.inner@ + nested_all(t.inner@)
}

/// The traces that a sequence of references points to.
pub open spec fn targets(s: Seq<&Trace>) -> Seq<Trace> {
    s.map_values(|x: &Trace| *x)
}

/// The duration of a trace as a mathematical integer (negative when invalid).
pub open spec fn span(t: Trace) -> int {
    t.end - t.start
}

/// What `wcet` returns for a trace.
pub open spec fn wcet_result(t: Trace) -> Result<u32, AnalysisError> {
    if t.end < t.start {
        Err(AnalysisError::InvalidTrace)
    } else {
        Ok((t.end - t.start) as u32)
    }
}

/// Behaviour shared by tasks and traces.
pub trait Schedulable {
    /// The root interval of this item.
    spec fn root(&self) -> Trace;

    /// Worst-case execution time C: the length of the root interval.
    fn wcet(&self) -> (r: Result<u32, AnalysisError>)
        ensures
            r == wcet_result(self.root()),
    ;

    /// Every resource access nested inside this item, at any depth.
    fn resources(&self) -> (r: Vec<&Trace>)
        ensures
            targets(r@) == nested(self.root()),
            self.root().inner@.len() == 0 ==> r@.len() == 0,
    ;
}

proof fn lemma_targets_push(s: Seq<&Trace>, x: &Trace)
    ensures
        targets(s.push(x)) == targets(s).push(*x),
{
    assert(targets(s.push(x)) =~= targets(s).push(*x));
}

/// Collects references to every trace nested inside `t`, in traversal order.
fn nested_refs(t: &Trace) -> (r: Vec<&Trace>)
    ensures
        targets(r@) == nested(*t),
    decreases t,
{
    let mut out: Vec<&Trace> = Vec::new();
    let n = t.inner.len();
    let mut i: usize = 0;
    while i < n
        invariant
            n == t.inner@.len(),
            i <= n,
            targets(out@) == t.inner@.subrange(0, i as int),
        decreases n - i,
    {
        let ghost prev = out@;
        out.push(&t.inner[i]);
        proof {
            lemma_targets_push(prev, &t.inner@[i as int]);
        }
        i += 1;
        assert(targets(out@) =~= t.inner@.subrange(0, i as int));
    }
    assert(t.inner@.subrange(0, n as int) =~= t.inner@);
    let mut j: usize = 0;
    while j < n
        invariant
            n == t.inner@.len(),
            j <= n,
            targets(out@) == t.inner@ + nested_all(t.inner@.subrange(0, j as int)),
        decreases n - j,
    {
        let sub = nested_refs(&t.inner[j]);
        let mut k: usize = 0;
        let ghost before = targets(out@);
        while k < sub.len()
            invariant
                k <= sub@.len(),
                targets(out@) == before + targets(sub@).subrange(0, k as int),
            decreases sub@.len() - k,
        {
            let ghost prev = out@;
            out.push(sub[k]);
            proof {
                lemma_targets_push(prev, sub@[k as int]);
            }
            k += 1;
            assert(targets(out@) =~= before + targets(sub@).subrange(0, k as int));
        }
        let ghost pre = t.inner@.subrange(0, j as int);
        let ghost next = t.inner@.subrange(0, j + 1);
        assert(next.subrange(0, j as int) =~= pre);
        assert(targets(sub@).subrange(0, sub@.len() as int) =~= targets(sub@));
        j += 1;
        assert(targets(out@) =~= t.inner@ + nested_all(t.inner@.subrange(0, j as int)));
    }
    assert(t.inner@.subrange(0, n as int) =~= t.inner@);
    out
}

impl Schedulable for Trace {
    open spec fn root(&self) -> Trace {
        *self
    }

    fn wcet(&self) -> (r: Result<u32, AnalysisError>) {
        if self.end < self.start {
            Err(AnalysisError::InvalidTrace)
        } else {
            Ok(self.end - self.start)
        }
    }

    fn resources(&self) -> (r: Vec<&Trace>) {
        nested_refs(self)
    }
}

impl Schedulable for Task {
    open spec fn root(&self) -> Trace {
        self.trace
    }

    fn wcet(&self) -> (r: Result<u32, AnalysisError>) {
        self.trace.wcet()
    }

    fn resources(&self) -> (r: Vec<&Trace>) {
        self.trace.resources()
    }
}

} // verus!
