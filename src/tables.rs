//! Lookup tables derived from a task set: the highest priority seen for each
//! identifier, and the resources each task uses.
use vstd::prelude::*;
use crate::model::{nested, targets, Schedulable, Task, Trace};

verus! {

/// For each task or resource identifier, the highest priority of a task whose
/// trace tree holds it. Keys are unique.
pub type IdPrio = Vec<(String, u8)>;

/// For each task identifier, the identifiers of the resources that it
/// accesses at any depth. Keys, and the names within each entry, are unique.
pub type TaskResources = Vec<(String, Vec<String>)>;

/// No key occurs twice among the entries.
pub open spec fn keys_unique<V>(m: Seq<(String, V)>) -> bool {
    forall|i: int, j: int| 0 <= i < j < m.len() ==> (#[trigger] m[i]).0@ != (#[trigger] m[j]).0@
}

/// The entries read as a map from key text to value; a later entry wins.
pub open spec fn entries_map<V>(m: Seq<(String, V)>) -> Map<Seq<char>, V>
    decreases m.len(),
{
    if m.len() == 0 {
        Map::empty()
    } else {
        let last = m[m.len() - 1];
        entries_map(m.subrange(0, m.len() - 1)).insert(last.0@, last.1)
    }
}

/// No name occurs twice.
pub open spec fn names_unique(v: Seq<String>) -> bool {
    forall|i: int, j: int| 0 <= i < j < v.len() ==> (#[trigger] v[i])@ != (#[trigger] v[j])@
}

/// The texts of a list of names.
pub open spec fn name_set(v: Seq<String>) -> Set<Seq<char>> {
    Set::new(|k: Seq<char>| exists|i: int| 0 <= i < v.len() && (#[trigger] v[i])@ == k)
}

/// The task-resource table read as a map from task id to resource ids.
pub open spec fn resource_map(m: Seq<(String, Vec<String>)>) -> Map<Seq<char>, Set<Seq<char>>> {
    entries_map(m).map_values(|v: Vec<String>| name_set(v@))
}

/// `m` with the entry for `k` raised to at least `p`.
pub open spec fn raise(m: Map<Seq<char>, u8>, k: Seq<char>, p: u8) -> Map<Seq<char>, u8> {
    if m.contains_key(k) && m[k] >= p {
        m
    } else {
        m.insert(k, p)
    }
}

/// `m` with the entries of the ids of `nodes[0..n]` raised to at least `p`.
pub open spec fn raise_all(m: Map<Seq<char>, u8>, nodes: Seq<Trace>, p: u8, n: int) -> Map<Seq<char>, u8>
    decreases n,
{
    if n <= 0 {
        m
    } else {
        raise(raise_all(m, nodes, p, n - 1), nodes[n - 1].id@, p)
    }
}

/// A trace followed by every trace nested in it.
pub open spec fn tree_nodes(t: Trace) -> Seq<Trace> {
    seq![t] + nested(t)
}

/// The priority table of `tasks[0..n]`.
pub open spec fn prio_table(tasks: Seq<Task>, n: int) -> Map<Seq<char>, u8>
    decreases n,
{
    if n <= 0 {
        Map::empty()
    } else {
        let t = tasks[n - 1];
        let nodes = tree_nodes(t.trace);
        raise_all(prio_table(tasks, n - 1), nodes, t.prio, nodes.len() as int)
    }
}

/// `m` with resource `r` recorded for task `k`.
pub open spec fn record(m: Map<Seq<char>, Set<Seq<char>>>, k: Seq<char>, r: Seq<char>) -> Map<Seq<char>, Set<Seq<char>>> {
    if m.contains_key(k) {
        m.insert(k, m[k].insert(r))
    } else {
        m.insert(k, set![r])
    }
}

/// `m` with the ids of `nodes[0..n]` recorded for task `k`.
pub open spec fn record_all(m: Map<Seq<char>, Set<Seq<char>>>, k: Seq<char>, nodes: Seq<Trace>, n: int) -> Map<Seq<char>, Set<Seq<char>>>
    decreases n,
{
    if n <= 0 {
        m
    } else {
        record(record_all(m, k, nodes, n - 1), k, nodes[n - 1].id@)
    }
}

/// `m` with the ids of `children[0..n]`, and of every trace nested in them,
/// recorded for task `k`.
pub open spec fn record_children(m: Map<Seq<char>, Set<Seq<char>>>, k: Seq<char>, children: Seq<Trace>, n: int) -> Map<Seq<char>, Set<Seq<char>>>
    decreases n,
{
    if n <= 0 {
        m
    } else {
        let nodes = tree_nodes(children[n - 1]);
        record_all(record_children(m, k, children, n - 1), k, nodes, nodes.len() as int)
    }
}

/// The task-resource table of `tasks[0..n]`.
pub open spec fn resource_table(tasks: Seq<Task>, n: int) -> Map<Seq<char>, Set<Seq<char>>>
    decreases n,
{
    if n <= 0 {
        Map::empty()
    } else {
        let t = tasks[n - 1];
        record_children(resource_table(tasks, n - 1), t.id@, t.trace.inner@, t.trace.inner@.len() as int)
    }
}

proof fn lemma_entries_push<V>(m: Seq<(String, V)>, e: (String, V))
    ensures
        entries_map(m.push(e)) == entries_map(m).insert(e.0@, e.1),
{
    assert(m.push(e).subrange(0, m.len() as int) =~= m);
}

proof fn lemma_entries_dom<V>(m: Seq<(String, V)>, k: Seq<char>)
    ensures
        entries_map(m).contains_key(k) <==> exists|i: int| 0 <= i < m.len() && (#[trigger] m[i]).0@ == k,
    decreases m.len(),
{
    if m.len() > 0 {
        let p = m.subrange(0, m.len() - 1);
        lemma_entries_dom(p, k);
        if exists|i: int| 0 <= i < m.len() && (#[trigger] m[i]).0@ == k {
            let i = choose|i: int| 0 <= i < m.len() && (#[trigger] m[i]).0@ == k;
            if i < m.len() - 1 {
                assert(p[i] == m[i]);
            }
        }
        if exists|i: int| 0 <= i < p.len() && (#[trigger] p[i]).0@ == k {
            let i = choose|i: int| 0 <= i < p.len() && (#[trigger] p[i]).0@ == k;
            assert(m[i] == p[i]);
        }
    }
}

proof fn lemma_entries_at<V>(m: Seq<(String, V)>, i: int)
    requires
        keys_unique(m),
        0 <= i < m.len(),
    ensures
        entries_map(m).contains_key(m[i].0@),
        entries_map(m)[m[i].0@] == m[i].1,
    decreases m.len(),
{
    let p = m.subrange(0, m.len() - 1);
    if i < m.len() - 1 {
        assert(p[i] == m[i]);
        lemma_entries_at(p, i);
        assert(m[i].0@ != m[m.len() - 1].0@);
    }
}

proof fn lemma_entries_update<V>(m: Seq<(String, V)>, i: int, v: V)
    requires
        keys_unique(m),
        0 <= i < m.len(),
    ensures
        keys_unique(m.update(i, (m[i].0, v))),
        entries_map(m.update(i, (m[i].0, v))) == entries_map(m).insert(m[i].0@, v),
    decreases m.len(),
{
    let m2 = m.update(i, (m[i].0, v));
    let p = m.subrange(0, m.len() - 1);
    let p2 = m2.subrange(0, m.len() - 1);
    assert(keys_unique(m2)) by {
        assert forall|a: int, b: int| 0 <= a < b < m2.len() implies (#[trigger] m2[a]).0@ != (#[trigger] m2[b]).0@ by {
            assert(m2[a].0 == m[a].0 && m2[b].0 == m[b].0);
        }
    }
    if i == m.len() - 1 {
        assert(p2 =~= p);
        assert(entries_map(m2) =~= entries_map(m).insert(m[i].0@, v));
    } else {
        assert(p2 =~= p.update(i, (p[i].0, v)));
        lemma_entries_update(p, i, v);
        assert(m[i].0@ != m[m.len() - 1].0@);
        assert(entries_map(m2) =~= entries_map(m).insert(m[i].0@, v));
    }
}

/// The position of the entry with key `k`, if any.
fn find_key<V>(m: &Vec<(String, V)>, k: &String) -> (r: Option<usize>)
    ensures
        match r {
            Some(i) => i < m@.len() && m@[i as int].0@ == k@,
            None => forall|i: int| 0 <= i < m@.len() ==> (#[trigger] m@[i]).0@ != k@,
        },
{
    let mut i: usize = 0;
    while i < m.len()
        invariant
            i <= m@.len(),
            forall|j: int| 0 <= j < i ==> (#[trigger] m@[j]).0@ != k@,
        decreases m@.len() - i,
    {
        if m[i].0 == *k {
            return Some(i);
        }
        i += 1;
    }
    None
}

/// Raises the entry of `k` to at least `prio`, adding it if absent.
fn raise_entry(prio: u8, k: &String, ip: &mut IdPrio)
    requires
        keys_unique(old(ip)@),
    ensures
        keys_unique(final(ip)@),
        entries_map(final(ip)@) == raise(entries_map(old(ip)@), k@, prio),
{
    proof {
        lemma_entries_dom(ip@, k@);
    }
    match find_key(ip, k) {
        Some(i) => {
            proof {
                lemma_entries_at(ip@, i as int);
            }
            if prio > ip[i].1 {
                let key = ip[i].0.clone();
                proof {
                    lemma_entries_update(ip@, i as int, prio);
                }
                ip.set(i, (key, prio));
            }
        },
        None => {
            let entry = (k.clone(), prio);
            proof {
                lemma_entries_push(ip@, entry);
            }
            let ghost before = ip@;
            ip.push(entry);
            assert(keys_unique(ip@)) by {
                assert forall|a: int, b: int| 0 <= a < b < ip@.len() implies (#[trigger] ip@[a]).0@ != (#[trigger] ip@[b]).0@ by {
                    if b == ip@.len() - 1 {
                        assert(before[a] == ip@[a]);
                    } else {
                        assert(before[a] == ip@[a] && before[b] == ip@[b]);
                    }
                }
            }
        },
    }
}

/// Raises the entries of `trace` and of every trace nested in it to at least
/// `prio`.
pub fn update_prio(prio: u8, trace: &Trace, ip: &mut IdPrio)
    requires
        keys_unique(old(ip)@),
    ensures
        keys_unique(final(ip)@),
        entries_map(final(ip)@) == raise_all(
            entries_map(old(ip)@),
            tree_nodes(*trace),
            prio,
            tree_nodes(*trace).len() as int,
        ),
{
    let ghost start = entries_map(ip@);
    let ghost nodes = tree_nodes(*trace);
    raise_entry(prio, &trace.id, ip);
    assert(nodes[0] == *trace);
    assert(raise_all(start, nodes, prio, 0) == start);
    let rs = trace.resources();
    let mut k: usize = 0;
    while k < rs.len()
        invariant
            targets(rs@) == nested(*trace),
            nodes == tree_nodes(*trace),
            k <= rs@.len(),
            keys_unique(ip@),
            entries_map(ip@) == raise_all(start, nodes, prio, k + 1),
        decreases rs@.len() - k,
    {
        assert(nodes[k + 1] == *rs@[k as int]);
        raise_entry(prio, &rs[k].id, ip);
        k += 1;
    }
    assert(nodes.len() == rs@.len() + 1);
}

/// Records resource `r` for task `k`.
fn record_entry(k: &String, r: &String, tr: &mut TaskResources)
    requires
        keys_unique(old(tr)@),
        forall|i: int| 0 <= i < old(tr)@.len() ==> names_unique((#[trigger] old(tr)@[i]).1@),
    ensures
        keys_unique(final(tr)@),
        forall|i: int| 0 <= i < final(tr)@.len() ==> names_unique((#[trigger] final(tr)@[i]).1@),
        resource_map(final(tr)@) == record(resource_map(old(tr)@), k@, r@),
{
    proof {
        lemma_entries_dom(tr@, k@);
    }
    let ghost before = tr@;
    match find_key(tr, k) {
        Some(i) => {
            proof {
                lemma_entries_at(tr@, i as int);
            }
            let mut entry: (String, Vec<String>) = (String::new(), Vec::new());
            tr.set_and_swap(i, &mut entry);
            assert(names_unique(before[i as int].1@));
            let ghost old_names = entry.1@;
            let mut present = false;
            let mut j: usize = 0;
            while j < entry.1.len() && !present
                invariant
                    j <= entry.1@.len(),
                    entry.1@ == old_names,
                    !present ==> forall|a: int| 0 <= a < j ==> (#[trigger] entry.1@[a])@ != r@,
                    present ==> j < entry.1@.len() && entry.1@[j as int]@ == r@,
                decreases entry.1@.len() - j + if present { 0int } else { 1int },
            {
                if entry.1[j] == *r {
                    present = true;
                } else {
                    j += 1;
                }
            }
            if !present {
                entry.1.push(r.clone());
                assert(names_unique(entry.1@)) by {
                    assert forall|a: int, b: int| 0 <= a < b < entry.1@.len() implies (#[trigger] entry.1@[a])@ != (#[trigger] entry.1@[b])@ by {
                        if b < old_names.len() {
                            assert(old_names[a] == entry.1@[a] && old_names[b] == entry.1@[b]);
                        } else {
                            assert(old_names[a] == entry.1@[a]);
                        }
                    }
                }
            }
            assert(name_set(entry.1@) =~= name_set(old_names).insert(r@)) by {
                if !present {
                    assert forall|x: Seq<char>| name_set(old_names).insert(r@).contains(x) implies name_set(entry.1@).contains(x) by {
                        if x == r@ {
                            assert(entry.1@[old_names.len() as int]@ == x);
                        } else {
                            let a = choose|a: int| 0 <= a < old_names.len() && (#[trigger] old_names[a])@ == x;
                            assert(entry.1@[a] == old_names[a]);
                        }
                    }
                    assert forall|x: Seq<char>| name_set(entry.1@).contains(x) implies name_set(old_names).insert(r@).contains(x) by {
                        let a = choose|a: int| 0 <= a < entry.1@.len() && (#[trigger] entry.1@[a])@ == x;
                        if a < old_names.len() {
                            assert(entry.1@[a] == old_names[a]);
                        }
                    }
                }
            }
            proof {
                assert(before[i as int].0 == entry.0);
                lemma_entries_update(before, i as int, entry.1);
                assert(before.update(i as int, (before[i as int].0, entry.1)) == tr@.update(i as int, entry));
            }
            tr.set(i, entry);
            assert(resource_map(tr@) =~= record(resource_map(before), k@, r@));
        },
        None => {
            let mut names: Vec<String> = Vec::new();
            names.push(r.clone());
            assert(name_set(names@) =~= set![r@]) by {
                assert(names@[0]@ == r@);
            }
            let entry = (k.clone(), names);
            proof {
                lemma_entries_push(tr@, entry);
            }
            tr.push(entry);
            assert(keys_unique(tr@)) by {
                assert forall|a: int, b: int| 0 <= a < b < tr@.len() implies (#[trigger] tr@[a]).0@ != (#[trigger] tr@[b]).0@ by {
                    if b == tr@.len() - 1 {
                        assert(before[a] == tr@[a]);
                    } else {
                        assert(before[a] == tr@[a] && before[b] == tr@[b]);
                    }
                }
            }
            assert forall|i: int| 0 <= i < tr@.len() implies names_unique((#[trigger] tr@[i]).1@) by {
                if i < before.len() {
                    assert(before[i] == tr@[i]);
                }
            }
            assert(resource_map(tr@) =~= record(resource_map(before), k@, r@));
        },
    }
}

/// Records, for task `s`, the resource of `trace` and of every trace nested
/// in it.
pub fn update_tr(s: String, trace: &Trace, trmap: &mut TaskResources)
    requires
        keys_unique(old(trmap)@),
        forall|i: int| 0 <= i < old(trmap)@.len() ==> names_unique((#[trigger] old(trmap)@[i]).1@),
    ensures
        keys_unique(final(trmap)@),
        forall|i: int| 0 <= i < final(trmap)@.len() ==> names_unique((#[trigger] final(trmap)@[i]).1@),
        resource_map(final(trmap)@) == record_all(
            resource_map(old(trmap)@),
            s@,
            tree_nodes(*trace),
            tree_nodes(*trace).len() as int,
        ),
{
    let ghost start = resource_map(trmap@);
    let ghost nodes = tree_nodes(*trace);
    record_entry(&s, &trace.id, trmap);
    assert(nodes[0] == *trace);
    assert(record_all(start, s@, nodes, 0) == start);
    let rs = trace.resources();
    let mut k: usize = 0;
    while k < rs.len()
        invariant
            targets(rs@) == nested(*trace),
            nodes == tree_nodes(*trace),
            k <= rs@.len(),
            keys_unique(trmap@),
            forall|i: int| 0 <= i < trmap@.len() ==> names_unique((#[trigger] trmap@[i]).1@),
            resource_map(trmap@) == record_all(start, s@, nodes, k + 1),
        decreases rs@.len() - k,
    {
        assert(nodes[k + 1] == *rs@[k as int]);
        record_entry(&s, &rs[k].id, trmap);
        k += 1;
    }
    assert(nodes.len() == rs@.len() + 1);
}

/// Builds both tables for a task set: the highest priority seen for every
/// task and resource id, and the resources each task accesses.
pub fn pre_analysis(tasks: &[Task]) -> (r: (IdPrio, TaskResources))
    ensures
        keys_unique(r.0@),
        entries_map(r.0@) == prio_table(tasks@, tasks@.len() as int),
        keys_unique(r.1@),
        forall|i: int| 0 <= i < r.1@.len() ==> names_unique((#[trigger] r.1@[i]).1@),
        resource_map(r.1@) == resource_table(tasks@, tasks@.len() as int),
{
    let mut ip: IdPrio = Vec::new();
    let mut tr: TaskResources = Vec::new();
    assert(entries_map(ip@) =~= Map::empty());
    assert(resource_map(tr@) =~= Map::empty());
    let mut i: usize = 0;
    while i < tasks.len()
        invariant
            i <= tasks@.len(),
            keys_unique(ip@),
            entries_map(ip@) == prio_table(tasks@, i as int),
            keys_unique(tr@),
            forall|j: int| 0 <= j < tr@.len() ==> names_unique((#[trigger] tr@[j]).1@),
            resource_map(tr@) == resource_table(tasks@, i as int),
        decreases tasks@.len() - i,
    {
        let t = &tasks[i];
        update_prio(t.prio, &t.trace, &mut ip);
        let ghost start = resource_map(tr@);
        let children = &t.trace.inner;
        assert(record_children(start, t.id@, children@, 0) == start);
        let mut j: usize = 0;
        while j < children.len()
            invariant
                j <= children@.len(),
                keys_unique(tr@),
                forall|a: int| 0 <= a < tr@.len() ==> names_unique((#[trigger] tr@[a]).1@),
                resource_map(tr@) == record_children(start, t.id@, children@, j as int),
            decreases children@.len() - j,
        {
            update_tr(t.id.clone(), &children[j], &mut tr);
            j += 1;
        }
        i += 1;
    }
    (ip, tr)
}

} // verus!
