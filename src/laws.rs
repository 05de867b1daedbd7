//! Properties that relate the analyses to each other and to their inputs.
use vstd::prelude::*;
use crate::model::{nested, nested_all, span, AnalysisError, PreemptionMode, Task, Trace};
use crate::analysis::{
    accesses, blocking, blocking_result, blocking_upto, busy_result, ceiling, exact_sum,
    interference_result, longest_blocking_section, response_result, sections_valid_below,
    first_zero_arrival, roots_valid_from, load_frac, load_num, load_den, gcd, lemma_gcd_divides,
};
use crate::tables::{prio_table, raise_all, record_all, record_children, resource_table, tree_nodes};

verus! {

/// Every analysis is a function of the task and the task set alone: asking
/// twice about the same unmodified inputs gives the same answers.
pub proof fn analysis_is_repeatable(t: Task, tasks: Seq<Task>, again: Task, tasks_again: Seq<Task>, mode: PreemptionMode)
    requires
        again == t,
        tasks_again == tasks,
    ensures
        blocking_result(again, tasks_again) == blocking_result(t, tasks),
        busy_result(again, tasks_again) == busy_result(t, tasks),
        interference_result(again, tasks_again) == interference_result(t, tasks),
        response_result(again, tasks_again, mode) == response_result(t, tasks, mode),
{
}

proof fn lemma_section_max(rs: Seq<crate::model::Trace>, tasks: Seq<Task>, prio: u8, n: int)
    requires
        n <= rs.len(),
    ensures
        longest_blocking_section(rs, tasks, prio, n) >= 0,
        forall|j: int|
            0 <= j < n && ceiling((#[trigger] rs[j]).id@, tasks) >= prio ==> span(rs[j])
                <= longest_blocking_section(rs, tasks, prio, n),
        longest_blocking_section(rs, tasks, prio, n) == 0 || exists|j: int|
            0 <= j < n && ceiling((#[trigger] rs[j]).id@, tasks) >= prio && span(rs[j])
                == longest_blocking_section(rs, tasks, prio, n),
    decreases n,
{
    if n > 0 {
        lemma_section_max(rs, tasks, prio, n - 1);
    }
}

proof fn lemma_blocking_max(tasks: Seq<Task>, prio: u8, n: int)
    requires
        n <= tasks.len(),
    ensures
        blocking_upto(tasks, prio, n) >= 0,
        forall|i: int, j: int|
            0 <= i < n && (#[trigger] tasks[i]).prio < prio && 0 <= j < nested(tasks[i].trace).len()
                && ceiling((#[trigger] nested(tasks[i].trace)[j]).id@, tasks) >= prio ==> span(
                nested(tasks[i].trace)[j],
            ) <= blocking_upto(tasks, prio, n),
        blocking_upto(tasks, prio, n) == 0 || exists|i: int, j: int|
            0 <= i < n && (#[trigger] tasks[i]).prio < prio && 0 <= j < nested(tasks[i].trace).len()
                && ceiling((#[trigger] nested(tasks[i].trace)[j]).id@, tasks) >= prio && span(
                nested(tasks[i].trace)[j],
            ) == blocking_upto(tasks, prio, n),
    decreases n,
{
    if n > 0 {
        lemma_blocking_max(tasks, prio, n - 1);
        let rs = nested(tasks[n - 1].trace);
        lemma_section_max(rs, tasks, prio, rs.len() as int);
        let b = longest_blocking_section(rs, tasks, prio, rs.len() as int);
        if tasks[n - 1].prio < prio && b > blocking_upto(tasks, prio, n - 1) {
            let j = choose|j: int|
                0 <= j < rs.len() && ceiling((#[trigger] rs[j]).id@, tasks) >= prio && span(rs[j]) == b;
            assert(tasks[n - 1] == tasks[n - 1]);
            assert(ceiling(nested(tasks[n - 1].trace)[j].id@, tasks) >= prio);
        }
    }
}

/// B(t) is the single longest critical section among the resources of
/// lower-priority tasks whose ceiling reaches the task's priority: no such
/// section is longer, and unless B(t) is 0 one of them is exactly as long.
pub proof fn blocking_is_longest_section(prio: u8, tasks: Seq<Task>)
    ensures
        blocking(prio, tasks) >= 0,
        forall|i: int, j: int|
            0 <= i < tasks.len() && (#[trigger] tasks[i]).prio < prio && 0 <= j < nested(tasks[i].trace).len()
                && ceiling((#[trigger] nested(tasks[i].trace)[j]).id@, tasks) >= prio ==> span(
                nested(tasks[i].trace)[j],
            ) <= blocking(prio, tasks),
        blocking(prio, tasks) == 0 || exists|i: int, j: int|
            0 <= i < tasks.len() && (#[trigger] tasks[i]).prio < prio && 0 <= j < nested(tasks[i].trace).len()
                && ceiling((#[trigger] nested(tasks[i].trace)[j]).id@, tasks) >= prio && span(
                nested(tasks[i].trace)[j],
            ) == blocking(prio, tasks),
{
    lemma_blocking_max(tasks, prio, tasks.len() as int);
}

/// In exact mode, once blocking, the task's own execution and the response
/// times of all higher-priority tasks add up to more than its deadline, the
/// task is reported as missing it.
pub proof fn exact_overrun_is_deadline_miss(t: Task, tasks: Seq<Task>, higher: int)
    requires
        sections_valid_below(t.prio, tasks),
        t.trace.start <= t.trace.end,
        exact_sum(tasks, t.prio, tasks.len() as int) == Ok::<int, AnalysisError>(higher),
        blocking(t.prio, tasks) + span(t.trace) + higher > t.deadline,
    ensures
        response_result(t, tasks, PreemptionMode::Exact) == Err::<u32, AnalysisError>(AnalysisError::DeadlineMissed),
{
}

/// Whether the trace tree of `task`, its root included, holds the id `k`.
pub open spec fn holds(task: Task, k: Seq<char>) -> bool {
    exists|j: int| 0 <= j < tree_nodes(task.trace).len() && (#[trigger] tree_nodes(task.trace)[j]).id@ == k
}

/// The highest priority among `tasks[0..n]` whose trace tree holds `k`, or -1.
pub open spec fn top_holder(k: Seq<char>, tasks: Seq<Task>, n: int) -> int
    decreases n,
{
    if n <= 0 {
        -1
    } else {
        let rest = top_holder(k, tasks, n - 1);
        let t = tasks[n - 1];
        if holds(t, k) && t.prio > rest {
            t.prio as int
        } else {
            rest
        }
    }
}

proof fn lemma_raise_all(m: Map<Seq<char>, u8>, nodes: Seq<Trace>, p: u8, n: int, k: Seq<char>)
    requires
        0 <= n <= nodes.len(),
    ensures
        (exists|j: int| 0 <= j < n && (#[trigger] nodes[j]).id@ == k) ==> {
            &&& raise_all(m, nodes, p, n).contains_key(k)
            &&& raise_all(m, nodes, p, n)[k] == if m.contains_key(k) && m[k] > p {
                m[k]
            } else {
                p
            }
        },
        !(exists|j: int| 0 <= j < n && (#[trigger] nodes[j]).id@ == k) ==> {
            &&& raise_all(m, nodes, p, n).contains_key(k) == m.contains_key(k)
            &&& raise_all(m, nodes, p, n)[k] == m[k]
        },
    decreases n,
{
    if n > 0 {
        lemma_raise_all(m, nodes, p, n - 1, k);
        if nodes[n - 1].id@ != k {
            if exists|j: int| 0 <= j < n && (#[trigger] nodes[j]).id@ == k {
                let j = choose|j: int| 0 <= j < n && (#[trigger] nodes[j]).id@ == k;
                assert(j < n - 1);
            }
        }
    }
}

/// The priority table built by `pre_analysis` maps exactly the ids that some
/// task's trace tree holds, each to the highest priority of such a task.
pub proof fn prio_table_is_highest_holder(tasks: Seq<Task>, n: int, k: Seq<char>)
    requires
        0 <= n <= tasks.len(),
    ensures
        prio_table(tasks, n).contains_key(k) <==> top_holder(k, tasks, n) >= 0,
        prio_table(tasks, n).contains_key(k) ==> prio_table(tasks, n)[k] == top_holder(k, tasks, n),
        top_holder(k, tasks, n) >= 0 <==> exists|i: int| 0 <= i < n && holds(#[trigger] tasks[i], k),
    decreases n,
{
    if n > 0 {
        prio_table_is_highest_holder(tasks, n - 1, k);
        let t = tasks[n - 1];
        let nodes = tree_nodes(t.trace);
        lemma_raise_all(prio_table(tasks, n - 1), nodes, t.prio, nodes.len() as int, k);
        if exists|i: int| 0 <= i < n && holds(#[trigger] tasks[i], k) {
            let i = choose|i: int| 0 <= i < n && holds(#[trigger] tasks[i], k);
            if i < n - 1 {
                assert(exists|i2: int| 0 <= i2 < n - 1 && holds(#[trigger] tasks[i2], k));
            }
        }
        if exists|i: int| 0 <= i < n - 1 && holds(#[trigger] tasks[i], k) {
            let i = choose|i: int| 0 <= i < n - 1 && holds(#[trigger] tasks[i], k);
            assert(0 <= i < n && holds(tasks[i], k));
        }
        if holds(t, k) {
            assert(0 <= n - 1 < n && holds(tasks[n - 1], k));
        }
    }
}

/// The ids of the traces in `s`.
pub open spec fn id_set(s: Seq<Trace>) -> Set<Seq<char>> {
    Set::new(|r: Seq<char>| exists|j: int| 0 <= j < s.len() && (#[trigger] s[j]).id@ == r)
}

/// The ids of the resources nested at any depth in the tasks of `tasks[0..n]`
/// whose id is `k`.
pub open spec fn resources_of(k: Seq<char>, tasks: Seq<Task>, n: int) -> Set<Seq<char>>
    decreases n,
{
    if n <= 0 {
        Set::empty()
    } else {
        let t = tasks[n - 1];
        resources_of(k, tasks, n - 1).union(
            if t.id@ == k {
                id_set(nested(t.trace))
            } else {
                Set::empty()
            },
        )
    }
}

/// The ids held by `children[0..n]` and by everything nested in them.
spec fn subtree_ids(children: Seq<Trace>, n: int) -> Set<Seq<char>>
    decreases n,
{
    if n <= 0 {
        Set::empty()
    } else {
        subtree_ids(children, n - 1).union(id_set(tree_nodes(children[n - 1])))
    }
}

/// The ids nested below `s[0..n]`, not counting the elements themselves.
spec fn below_ids(s: Seq<Trace>, n: int) -> Set<Seq<char>>
    decreases n,
{
    if n <= 0 {
        Set::empty()
    } else {
        below_ids(s, n - 1).union(id_set(nested(s[n - 1])))
    }
}

proof fn lemma_id_set_concat(a: Seq<Trace>, b: Seq<Trace>)
    ensures
        id_set(a + b) == id_set(a).union(id_set(b)),
{
    assert forall|r: Seq<char>| id_set(a + b).contains(r) implies id_set(a).union(id_set(b)).contains(r) by {
        let j = choose|j: int| 0 <= j < (a + b).len() && (#[trigger] (a + b)[j]).id@ == r;
        if j < a.len() {
            assert(a[j] == (a + b)[j]);
        } else {
            assert(b[j - a.len()] == (a + b)[j]);
        }
    }
    assert forall|r: Seq<char>| id_set(a).union(id_set(b)).contains(r) implies id_set(a + b).contains(r) by {
        if id_set(a).contains(r) {
            let j = choose|j: int| 0 <= j < a.len() && (#[trigger] a[j]).id@ == r;
            assert((a + b)[j] == a[j]);
        } else {
            let j = choose|j: int| 0 <= j < b.len() && (#[trigger] b[j]).id@ == r;
            assert((a + b)[j + a.len()] == b[j]);
        }
    }
    assert(id_set(a + b) =~= id_set(a).union(id_set(b)));
}

proof fn lemma_id_set_push(a: Seq<Trace>, n: int)
    requires
        0 <= n < a.len(),
    ensures
        id_set(a.subrange(0, n + 1)) == id_set(a.subrange(0, n)).union(id_set(seq![a[n]])),
{
    assert(a.subrange(0, n + 1) =~= a.subrange(0, n) + seq![a[n]]);
    lemma_id_set_concat(a.subrange(0, n), seq![a[n]]);
}

proof fn lemma_below_ids(s: Seq<Trace>, n: int)
    requires
        0 <= n <= s.len(),
    ensures
        id_set(nested_all(s.subrange(0, n))) == below_ids(s, n),
    decreases n,
{
    if n == 0 {
        assert(id_set(nested_all(s.subrange(0, 0))) =~= Set::empty());
    } else {
        lemma_below_ids(s, n - 1);
        let p = s.subrange(0, n);
        assert(p.subrange(0, n - 1) =~= s.subrange(0, n - 1));
        assert(p[n - 1] == s[n - 1]);
        let last = s[n - 1];
        lemma_id_set_concat(nested_all(s.subrange(0, n - 1)), last.inner@ + nested_all(last.inner@));
    }
}

proof fn lemma_subtree_ids(cs: Seq<Trace>, n: int)
    requires
        0 <= n <= cs.len(),
    ensures
        subtree_ids(cs, n) == id_set(cs.subrange(0, n)).union(below_ids(cs, n)),
    decreases n,
{
    if n == 0 {
        assert(id_set(cs.subrange(0, 0)) =~= Set::empty());
        assert(subtree_ids(cs, 0) =~= id_set(cs.subrange(0, 0)).union(below_ids(cs, 0)));
    } else {
        lemma_subtree_ids(cs, n - 1);
        lemma_id_set_push(cs, n - 1);
        lemma_id_set_concat(seq![cs[n - 1]], nested(cs[n - 1]));
        assert(subtree_ids(cs, n) =~= id_set(cs.subrange(0, n)).union(below_ids(cs, n)));
    }
}

/// Every id nested in `t` is an id of one of its children's subtrees, and
/// back.
proof fn lemma_nested_ids(t: Trace)
    ensures
        id_set(nested(t)) == subtree_ids(t.inner@, t.inner@.len() as int),
{
    let cs = t.inner@;
    lemma_subtree_ids(cs, cs.len() as int);
    lemma_below_ids(cs, cs.len() as int);
    assert(cs.subrange(0, cs.len() as int) =~= cs);
    lemma_id_set_concat(cs, nested_all(cs));
}

proof fn lemma_record_all(m: Map<Seq<char>, Set<Seq<char>>>, k: Seq<char>, nodes: Seq<Trace>, n: int)
    requires
        0 <= n <= nodes.len(),
    ensures
        forall|x: Seq<char>| x != k ==> #[trigger] record_all(m, k, nodes, n).contains_key(x) == m.contains_key(x),
        forall|x: Seq<char>| x != k && m.contains_key(x) ==> #[trigger] record_all(m, k, nodes, n)[x] == m[x],
        record_all(m, k, nodes, n).contains_key(k) == (m.contains_key(k) || n > 0),
        record_all(m, k, nodes, n).contains_key(k) ==> record_all(m, k, nodes, n)[k] == (if m.contains_key(k) {
            m[k]
        } else {
            Set::empty()
        }).union(id_set(nodes.subrange(0, n))),
    decreases n,
{
    if n == 0 {
        assert(id_set(nodes.subrange(0, 0)) =~= Set::empty());
        if m.contains_key(k) {
            assert(m[k].union(Set::empty()) =~= m[k]);
        }
    } else {
        lemma_record_all(m, k, nodes, n - 1);
        lemma_id_set_push(nodes, n - 1);
        let base = if m.contains_key(k) {
            m[k]
        } else {
            Set::empty()
        };
        let single = seq![nodes[n - 1]];
        assert(id_set(single) =~= set![nodes[n - 1].id@]) by {
            assert(single[0] == nodes[n - 1]);
        }
        let prev = record_all(m, k, nodes, n - 1);
        if prev.contains_key(k) {
            assert(prev[k].insert(nodes[n - 1].id@) =~= base.union(id_set(nodes.subrange(0, n))));
        } else {
            assert(set![nodes[n - 1].id@] =~= base.union(id_set(nodes.subrange(0, n))));
        }
    }
}

proof fn lemma_record_children(m: Map<Seq<char>, Set<Seq<char>>>, k: Seq<char>, cs: Seq<Trace>, n: int)
    requires
        0 <= n <= cs.len(),
    ensures
        forall|x: Seq<char>| x != k ==> #[trigger] record_children(m, k, cs, n).contains_key(x) == m.contains_key(x),
        forall|x: Seq<char>| x != k && m.contains_key(x) ==> #[trigger] record_children(m, k, cs, n)[x] == m[x],
        record_children(m, k, cs, n).contains_key(k) == (m.contains_key(k) || n > 0),
        record_children(m, k, cs, n).contains_key(k) ==> record_children(m, k, cs, n)[k] == (if m.contains_key(k) {
            m[k]
        } else {
            Set::empty()
        }).union(subtree_ids(cs, n)),
    decreases n,
{
    if n == 0 {
        if m.contains_key(k) {
            assert(m[k].union(Set::empty()) =~= m[k]);
        }
    } else {
        lemma_record_children(m, k, cs, n - 1);
        let prev = record_children(m, k, cs, n - 1);
        let nodes = tree_nodes(cs[n - 1]);
        lemma_record_all(prev, k, nodes, nodes.len() as int);
        assert(nodes.subrange(0, nodes.len() as int) =~= nodes);
        let base = if m.contains_key(k) {
            m[k]
        } else {
            Set::empty()
        };
        if prev.contains_key(k) {
            assert(prev[k].union(id_set(nodes)) =~= base.union(subtree_ids(cs, n)));
        } else {
            assert(n == 1 && subtree_ids(cs, 0) == Set::<Seq<char>>::empty());
            assert(Set::<Seq<char>>::empty().union(id_set(nodes)) =~= base.union(subtree_ids(cs, n)));
        }
    }
}

proof fn lemma_resources_of_members(k: Seq<char>, tasks: Seq<Task>, n: int, r: Seq<char>)
    requires
        0 <= n <= tasks.len(),
    ensures
        resources_of(k, tasks, n).contains(r) <==> exists|i: int|
            0 <= i < n && (#[trigger] tasks[i]).id@ == k && accesses(tasks[i], r),
    decreases n,
{
    if n > 0 {
        lemma_resources_of_members(k, tasks, n - 1, r);
        let t = tasks[n - 1];
        assert(accesses(t, r) == id_set(nested(t.trace)).contains(r));
        if exists|i: int| 0 <= i < n && (#[trigger] tasks[i]).id@ == k && accesses(tasks[i], r) {
            let i = choose|i: int| 0 <= i < n && (#[trigger] tasks[i]).id@ == k && accesses(tasks[i], r);
            if i < n - 1 {
                assert(exists|i2: int| 0 <= i2 < n - 1 && (#[trigger] tasks[i2]).id@ == k && accesses(tasks[i2], r));
            }
        }
        if exists|i: int| 0 <= i < n - 1 && (#[trigger] tasks[i]).id@ == k && accesses(tasks[i], r) {
            let i = choose|i: int| 0 <= i < n - 1 && (#[trigger] tasks[i]).id@ == k && accesses(tasks[i], r);
            assert(0 <= i < n && tasks[i].id@ == k && accesses(tasks[i], r));
        }
        if t.id@ == k && accesses(t, r) {
            assert(0 <= n - 1 < n && tasks[n - 1].id@ == k && accesses(tasks[n - 1], r));
        }
    }
}

/// The task-resource table built by `pre_analysis` has an entry for exactly
/// the task ids of tasks with at least one nested resource, and each entry
/// holds the ids of every resource that a task of that id accesses.
pub proof fn resource_table_is_accessed_resources(tasks: Seq<Task>, n: int, k: Seq<char>)
    requires
        0 <= n <= tasks.len(),
    ensures
        resource_table(tasks, n).contains_key(k) <==> exists|i: int|
            0 <= i < n && (#[trigger] tasks[i]).id@ == k && tasks[i].trace.inner@.len() > 0,
        resource_table(tasks, n).contains_key(k) ==> resource_table(tasks, n)[k] == resources_of(k, tasks, n),
        !resource_table(tasks, n).contains_key(k) ==> resources_of(k, tasks, n) == Set::<Seq<char>>::empty(),
        forall|r: Seq<char>|
            #[trigger] resources_of(k, tasks, n).contains(r) <==> exists|i: int|
                0 <= i < n && (#[trigger] tasks[i]).id@ == k && accesses(tasks[i], r),
    decreases n,
{
    assert forall|r: Seq<char>|
        #[trigger] resources_of(k, tasks, n).contains(r) <==> exists|i: int|
            0 <= i < n && (#[trigger] tasks[i]).id@ == k && accesses(tasks[i], r) by {
        lemma_resources_of_members(k, tasks, n, r);
    }
    if n > 0 {
        resource_table_is_accessed_resources(tasks, n - 1, k);
        let t = tasks[n - 1];
        let prev = resource_table(tasks, n - 1);
        lemma_record_children(prev, t.id@, t.trace.inner@, t.trace.inner@.len() as int);
        lemma_nested_ids(t.trace);
        if exists|i: int| 0 <= i < n && (#[trigger] tasks[i]).id@ == k && tasks[i].trace.inner@.len() > 0 {
            let i = choose|i: int| 0 <= i < n && (#[trigger] tasks[i]).id@ == k && tasks[i].trace.inner@.len() > 0;
            if i < n - 1 {
                assert(exists|i2: int| 0 <= i2 < n - 1 && (#[trigger] tasks[i2]).id@ == k && tasks[i2].trace.inner@.len() > 0);
            }
        }
        if exists|i: int| 0 <= i < n - 1 && (#[trigger] tasks[i]).id@ == k && tasks[i].trace.inner@.len() > 0 {
            let i = choose|i: int| 0 <= i < n - 1 && (#[trigger] tasks[i]).id@ == k && tasks[i].trace.inner@.len() > 0;
            assert(0 <= i < n && tasks[i].id@ == k && tasks[i].trace.inner@.len() > 0);
        }
        if t.id@ == k && t.trace.inner@.len() > 0 {
            assert(0 <= n - 1 < n && tasks[n - 1].id@ == k && tasks[n - 1].trace.inner@.len() > 0);
        }
        if t.id@ == k {
            if t.trace.inner@.len() == 0 {
                assert(t.trace.inner@ + nested_all(t.trace.inner@) =~= Seq::<Trace>::empty());
                assert(id_set(nested(t.trace)) =~= Set::empty());
            }
            if prev.contains_key(k) {
                assert(resources_of(k, tasks, n) =~= prev[k].union(id_set(nested(t.trace))));
            } else if t.trace.inner@.len() == 0 {
                assert(resources_of(k, tasks, n) =~= Set::<Seq<char>>::empty());
            } else {
                assert(resources_of(k, tasks, n) =~= Set::<Seq<char>>::empty().union(id_set(nested(t.trace))));
            }
        } else {
            assert(resources_of(k, tasks, n) =~= resources_of(k, tasks, n - 1));
        }
    }
}

/// The fraction `total_load_factor` reports equals the sum of C(t) / A(t):
/// cross-multiplied with the product of all inter-arrival times, it gives
/// the sum of each C(t) times the other tasks' inter-arrival times.
pub proof fn load_factor_is_utilisation(tasks: Seq<Task>, n: int)
    requires
        0 <= n <= tasks.len(),
        first_zero_arrival(tasks, -1, tasks.len() as int) is None,
        roots_valid_from(0, tasks),
    ensures
        load_frac(tasks, n).0 >= 0,
        load_frac(tasks, n).1 >= 1,
        load_den(tasks, n) >= 1,
        load_num(tasks, n) >= 0,
        load_frac(tasks, n).0 * load_den(tasks, n) == load_num(tasks, n) * load_frac(tasks, n).1,
    decreases n,
{
    if n > 0 {
        load_factor_is_utilisation(tasks, n - 1);
        let t = tasks[n - 1];
        crate::analysis::lemma_arrival_positive(tasks, n - 1);
        assert(t.trace.start <= t.trace.end);
        let p = load_frac(tasks, n - 1).0;
        let q = load_frac(tasks, n - 1).1;
        let nn = load_num(tasks, n - 1);
        let d = load_den(tasks, n - 1);
        let a = t.inter_arrival as int;
        let w = span(t.trace);
        let x = p * a + w * q;
        let y = q * a;
        assert(x >= 0 && y >= 1 && d * a >= 1 && nn * a + w * d >= 0) by (nonlinear_arith)
            requires
                p >= 0,
                q >= 1,
                a >= 1,
                w >= 0,
                d >= 1,
                nn >= 0,
                x == p * a + w * q,
                y == q * a,
        ;
        let k = lemma_gcd_divides(x as nat, y as nat);
        let g = gcd(x as nat, y as nat) as int;
        assert(x / g == k.0 && y / g == k.1 && k.0 >= 0 && k.1 >= 1) by (nonlinear_arith)
            requires
                x == k.0 * g,
                y == k.1 * g,
                g > 0,
                y >= 1,
                k.0 >= 0,
                k.1 >= 0,
        ;
        let k0 = k.0 as int;
        let k1 = k.1 as int;
        let lhs = k0 * (d * a);
        let rhs = (nn * a + w * d) * k1;
        assert(g * lhs == (p * a + w * q) * (d * a)) by (nonlinear_arith)
            requires
                x == k0 * g,
                x == p * a + w * q,
                lhs == k0 * (d * a),
        ;
        assert(g * rhs == (nn * a + w * d) * (q * a)) by (nonlinear_arith)
            requires
                y == k1 * g,
                y == q * a,
                rhs == (nn * a + w * d) * k1,
        ;
        assert((p * a + w * q) * (d * a) == (nn * a + w * d) * (q * a)) by (nonlinear_arith)
            requires
                p * d == nn * q,
        ;
        assert(lhs == rhs) by (nonlinear_arith)
            requires
                g > 0,
                g * lhs == g * rhs,
        ;
    }
}

} // verus!
