//! The process tree: ancestors, children, descendants and what is summed over them.
//!
//! A parent PID may have been given out again since the child was started. A link between two
//! processes counts only where both creation times are known and the parent is not the younger.
use std::collections::{HashMap, HashSet};

use vstd::prelude::*;

use crate::decimal::{self, append_decimal};
use crate::model::ProcessInfo;
use crate::text::{self, join};

verus! {

broadcast use vstd::std_specs::hash::group_hash_axioms;

/// The longest chain of ancestors that is followed.
pub const MAX_ANCESTORS: usize = 64;

// ---------------------------------------------------------------------------------------------
// Models
// ---------------------------------------------------------------------------------------------
/// The processes by PID. Where a PID occurs twice, the later process stands.
pub open spec fn by_pid(processes: Seq<ProcessInfo>) -> Map<u32, ProcessInfo>
    decreases processes.len(),
{
    if processes.len() == 0 {
        Map::empty()
    } else {
        by_pid(processes.drop_last()).insert(processes.last().pid, processes.last())
    }
}

/// What a map from PIDs to processes says.
pub open spec fn known<'a>(by_id: Map<u32, &'a ProcessInfo>) -> Map<u32, ProcessInfo> {
    by_id.map_values(|process: &'a ProcessInfo| *process)
}

/// `found`, followed by the ancestors from `parent` up. The way up ends at PID zero, at a PID
/// that is not known or was met before, at a link that does not count, and at the limit.
pub open spec fn ancestor_chain(
    known: Map<u32, ProcessInfo>,
    parent: u32,
    child_started: u64,
    found: Seq<u32>,
) -> Seq<u32>
    decreases MAX_ANCESTORS - found.len(),
{
    if parent == 0 || found.len() >= MAX_ANCESTORS || found.contains(parent)
        || !known.contains_key(parent) || known[parent].started == 0 || child_started == 0
        || known[parent].started > child_started {
        found
    } else {
        ancestor_chain(
            known,
            known[parent].parent_pid,
            known[parent].started,
            found.push(parent),
        )
    }
}

/// The ancestors of a process, from its parent up.
pub open spec fn ancestors_of(known: Map<u32, ProcessInfo>, process: ProcessInfo) -> Seq<u32> {
    ancestor_chain(known, process.parent_pid, process.started, Seq::empty())
}

/// A process as it is shown in a relation path.
pub open spec fn label(name: Seq<char>, pid: u32) -> Seq<char> {
    name + " (PID "@ + decimal::decimal(pid as nat) + ")"@
}

/// The labels of the ancestors up to and including the owner, or up to one that is not known.
pub open spec fn ancestor_labels(
    known: Map<u32, ProcessInfo>,
    ancestors: Seq<u32>,
    owner: Option<u32>,
) -> Seq<Seq<char>>
    decreases ancestors.len(),
{
    if ancestors.len() == 0 || !known.contains_key(ancestors[0]) {
        Seq::empty()
    } else {
        let first = known[ancestors[0]];
        if owner == Some(ancestors[0]) {
            seq![label(first.name@, first.pid)]
        } else {
            seq![label(first.name@, first.pid)] + ancestor_labels(
                known,
                ancestors.drop_first(),
                owner,
            )
        }
    }
}

/// The path from the owner, or the topmost known ancestor, down to the process.
pub open spec fn relation_text(
    known: Map<u32, ProcessInfo>,
    process: ProcessInfo,
    ancestors: Seq<u32>,
    owner: Option<u32>,
) -> Seq<char> {
    let upward = seq![label(process.name@, process.pid)] + ancestor_labels(known, ancestors, owner);
    text::joined(upward.reverse(), "  →  "@)
}

/// `process` is a child of `parent`, by a link that counts.
pub open spec fn is_child(
    known: Map<u32, ProcessInfo>,
    process: ProcessInfo,
    parent: u32,
) -> bool {
    &&& process.parent_pid == parent
    &&& known.contains_key(parent)
    &&& known[parent].started != 0
    &&& process.started != 0
    &&& process.started >= known[parent].started
}

/// The PIDs of the children of `parent` among `processes`, in their order.
pub open spec fn children_among(
    known: Map<u32, ProcessInfo>,
    processes: Seq<ProcessInfo>,
    parent: u32,
) -> Seq<u32>
    decreases processes.len(),
{
    if processes.len() == 0 {
        Seq::empty()
    } else {
        let before = children_among(known, processes.drop_last(), parent);
        if is_child(known, processes.last(), parent) {
            before.push(processes.last().pid)
        } else {
            before
        }
    }
}

/// The children of each process that has any.
pub open spec fn child_lists(processes: Seq<ProcessInfo>) -> Map<u32, Seq<u32>> {
    Map::new(
        |parent: u32| children_among(by_pid(processes), processes, parent).len() > 0,
        |parent: u32| children_among(by_pid(processes), processes, parent),
    )
}

/// What a map from PIDs to lists of children says.
pub open spec fn lists(children: Map<u32, Vec<u32>>) -> Map<u32, Seq<u32>> {
    children.map_values(|list: Vec<u32>| list@)
}

/// The children of one process.
pub open spec fn children_of(tree: Map<u32, Seq<u32>>, parent: u32) -> Seq<u32> {
    if tree.contains_key(parent) {
        tree[parent]
    } else {
        Seq::empty()
    }
}

/// `order`, followed by those of `items` that it does not hold yet, each once.
pub open spec fn with_new(order: Seq<u32>, items: Seq<u32>) -> Seq<u32>
    decreases items.len(),
{
    if items.len() == 0 {
        order
    } else {
        let before = with_new(order, items.drop_last());
        if before.contains(items.last()) {
            before
        } else {
            before.push(items.last())
        }
    }
}

/// The order in which a walk over the tree, level by level, has met the processes once it has
/// looked at the children of the first `steps` of them.
pub open spec fn walk(tree: Map<u32, Seq<u32>>, root: u32, steps: nat) -> Seq<u32>
    decreases steps,
{
    if steps == 0 {
        seq![root]
    } else {
        let order = walk(tree, root, (steps - 1) as nat);
        if steps - 1 < order.len() {
            with_new(order, children_of(tree, order[steps - 1]))
        } else {
            order
        }
    }
}

/// The processes below `root`, level by level. There are no more PIDs than the walk has steps.
pub open spec fn descendants(tree: Map<u32, Seq<u32>>, root: u32) -> Seq<u32> {
    walk(tree, root, 0x1_0000_0000).drop_first()
}

/// The CPU time of the known processes among `pids`.
pub open spec fn total_ticks(known: Map<u32, ProcessInfo>, pids: Seq<u32>) -> nat
    decreases pids.len(),
{
    if pids.len() == 0 {
        0
    } else {
        total_ticks(known, pids.drop_last()) + if known.contains_key(pids.last()) {
            known[pids.last()].cpu_ticks as nat
        } else {
            0
        }
    }
}

/// The CPU time of `root` and all that is below it, capped at the largest number of 64 bits.
pub open spec fn tree_ticks(
    known: Map<u32, ProcessInfo>,
    tree: Map<u32, Seq<u32>>,
    root: u32,
) -> u64 {
    let total = total_ticks(known, descendants(tree, root).push(root));
    if total < u64::MAX {
        total as u64
    } else {
        u64::MAX
    }
}

// ---------------------------------------------------------------------------------------------
// Functions
// ---------------------------------------------------------------------------------------------
/// The processes by PID.
pub fn index_by_pid<'a>(processes: &'a [ProcessInfo]) -> (result: HashMap<u32, &'a ProcessInfo>)
    ensures
        known(result@) == by_pid(processes@),
{
    let mut result: HashMap<u32, &'a ProcessInfo> = HashMap::new();
    assert(known(result@) =~= by_pid(processes@.take(0)));
    for i in 0..processes.len()
        invariant
            known(result@) == by_pid(processes@.take(i as int)),
    {
        assert(processes@.take(i + 1).drop_last() =~= processes@.take(i as int));
        let process: &'a ProcessInfo = &processes[i];
        let ghost before = result@;
        result.insert(process.pid, process);
        assert(known(result@) =~= known(before).insert(process.pid, *process));
    }
    assert(processes@.take(processes@.len() as int) =~= processes@);
    result
}

/// Whether `pid` is in `list`.
pub fn listed(list: &[u32], pid: u32) -> (result: bool)
    ensures
        result == list@.contains(pid),
{
    for i in 0..list.len()
        invariant
            forall|j: int| 0 <= j < i ==> list@[j] != pid,
    {
        if list[i] == pid {
            return true;
        }
    }
    false
}

/// The ancestors of a process, from its parent up.
pub fn ancestors(process: &ProcessInfo, by_id: &HashMap<u32, &ProcessInfo>) -> (result: Vec<u32>)
    ensures
        result@ == ancestors_of(known(by_id@), *process),
{
    let mut result: Vec<u32> = Vec::new();
    let mut parent: u32 = process.parent_pid;
    let mut child_started: u64 = process.started;
    while parent != 0 && result.len() < MAX_ANCESTORS && !listed(result.as_slice(), parent)
        invariant
            result@.len() <= MAX_ANCESTORS,
            ancestor_chain(known(by_id@), parent, child_started, result@) == ancestors_of(
                known(by_id@),
                *process,
            ),
        decreases MAX_ANCESTORS - result@.len(),
    {
        match by_id.get(&parent) {
            None => {
                return result;
            },
            Some(item) => {
                assert(known(by_id@)[parent] == **item);
                if item.started == 0 || child_started == 0 || item.started > child_started {
                    return result;
                }
                result.push(parent);
                child_started = item.started;
                parent = item.parent_pid;
            },
        }
    }
    result
}

/// A process as it is shown in a relation path.
fn process_label(process: &ProcessInfo) -> (result: String)
    ensures
        result@ == label(process.name@, process.pid),
{
    let mut result = process.name.clone();
    result.append(" (PID ");
    append_decimal(&mut result, process.pid as u64);
    result.append(")");
    result
}

/// The path from the owner, or the topmost known ancestor, down to the process.
pub fn relation_path(
    process: &ProcessInfo,
    ancestors: &[u32],
    by_id: &HashMap<u32, &ProcessInfo>,
    owner_pid: Option<u32>,
) -> (result: String)
    ensures
        result@ == relation_text(known(by_id@), *process, ancestors@, owner_pid),
{
    let mut parts: Vec<String> = Vec::new();
    parts.push(process_label(process));
    let ghost all = ancestor_labels(known(by_id@), ancestors@, owner_pid);
    let ghost upward = seq![label(process.name@, process.pid)] + all;
    let mut i: usize = 0;
    let mut done = false;
    assert(ancestors@.skip(0) =~= ancestors@);
    assert(text::strings(parts@) + all =~= upward);
    while i < ancestors.len() && !done
        invariant
            i <= ancestors@.len(),
            !done ==> text::strings(parts@) + ancestor_labels(
                known(by_id@),
                ancestors@.skip(i as int),
                owner_pid,
            ) == upward,
            done ==> text::strings(parts@) == upward,
        decreases ancestors@.len() - i,
    {
        let ghost before = text::strings(parts@);
        let ghost rest = ancestors@.skip(i as int);
        assert(rest.drop_first() =~= ancestors@.skip(i + 1));
        let pid: u32 = ancestors[i];
        match by_id.get(&pid) {
            None => {
                assert(before + Seq::empty() =~= before);
                done = true;
            },
            Some(item) => {
                assert(known(by_id@)[pid] == **item);
                let part = process_label(item);
                let ghost longer = parts@.push(part);
                assert(text::strings(longer) =~= before.push(part@));
                parts.push(part);
                let is_owner = match owner_pid {
                    Some(owner) => owner == pid,
                    None => false,
                };
                if is_owner {
                    assert(text::strings(parts@) =~= before + seq![part@]);
                    done = true;
                } else {
                    assert(text::strings(parts@) + ancestor_labels(
                        known(by_id@),
                        ancestors@.skip(i + 1),
                        owner_pid,
                    ) =~= before + ancestor_labels(known(by_id@), rest, owner_pid));
                }
            },
        }
        i = i + 1;
    }
    assert(text::strings(parts@) =~= upward);
    let mut downward: Vec<String> = Vec::new();
    let mut left: usize = parts.len();
    while left > 0
        invariant
            left <= parts@.len(),
            text::strings(parts@) == upward,
            text::strings(downward@) == upward.reverse().take(parts@.len() - left),
        decreases left,
    {
        left = left - 1;
        let part = parts[left].clone();
        assert(part@ == upward[left as int]) by {
            assert(text::strings(parts@)[left as int] == parts@[left as int]@);
        }
        let ghost longer = downward@.push(part);
        assert(text::strings(longer) =~= text::strings(downward@).push(part@));
        assert(upward.len() == parts@.len());
        assert(upward.reverse().take(parts@.len() - left) =~= upward.reverse().take(
            parts@.len() - left - 1,
        ).push(upward[left as int]));
        downward.push(part);
    }
    assert(upward.reverse().take(parts@.len() as int) =~= upward.reverse());
    join(&downward, "  →  ")
}

/// The children of each process that has any.
pub fn build_children(processes: &[ProcessInfo]) -> (result: HashMap<u32, Vec<u32>>)
    ensures
        lists(result@) == child_lists(processes@),
{
    let mut children: HashMap<u32, Vec<u32>> = HashMap::new();
    let by_id = index_by_pid(processes);
    let ghost index = by_pid(processes@);
    for i in 0..processes.len()
        invariant
            index == by_pid(processes@),
            known(by_id@) == index,
            forall|parent: u32| #[trigger]
                children@.contains_key(parent) ==> children@[parent]@ == children_among(
                    index,
                    processes@.take(i as int),
                    parent,
                ),
            forall|parent: u32| #[trigger]
                children@.contains_key(parent) <==> children_among(
                    index,
                    processes@.take(i as int),
                    parent,
                ).len() > 0,
    {
        assert(processes@.take(i + 1).drop_last() =~= processes@.take(i as int));
        assert(processes@.take(i + 1).last() == processes@[i as int]);
        let process: &ProcessInfo = &processes[i];
        let parent_pid: u32 = process.parent_pid;
        if let Some(parent) = by_id.get(&parent_pid) {
            assert(index[parent_pid] == **parent);
            if parent.started != 0 && process.started != 0 && process.started >= parent.started {
                let ghost before = children@;
                let mut list = match children.remove(&parent_pid) {
                    Some(list) => list,
                    None => Vec::new(),
                };
                assert(list@ =~= children_among(index, processes@.take(i as int), parent_pid));
                list.push(process.pid);
                children.insert(parent_pid, list);
                assert forall|other: u32| other != parent_pid implies children_among(
                    index,
                    processes@.take(i + 1),
                    other,
                ) == children_among(index, processes@.take(i as int), other) by {}
            }
        } else {
            assert(!index.contains_key(parent_pid));
        }
    }
    assert(processes@.take(processes@.len() as int) =~= processes@);
    assert(lists(children@) =~= child_lists(processes@));
    children
}

/// A list of PIDs without repetition is no longer than there are PIDs.
pub proof fn lemma_distinct_pids(order: Seq<u32>)
    requires
        order.no_duplicates(),
    ensures
        order.len() <= 0x1_0000_0000,
{
    let numbers = order.map_values(|pid: u32| pid as int);
    assert(numbers.no_duplicates());
    numbers.unique_seq_to_set();
    vstd::set_lib::lemma_int_range(0, 0x1_0000_0000);
    assert(numbers.to_set().subset_of(vstd::set_lib::set_int_range(0, 0x1_0000_0000)));
    vstd::set_lib::lemma_len_subset(
        numbers.to_set(),
        vstd::set_lib::set_int_range(0, 0x1_0000_0000),
    );
}

/// What is added keeps the order in front and repeats nothing.
proof fn lemma_with_new(order: Seq<u32>, items: Seq<u32>)
    requires
        order.no_duplicates(),
    ensures
        with_new(order, items).no_duplicates(),
        with_new(order, items).len() >= order.len(),
        with_new(order, items).take(order.len() as int) == order,
        forall|pid: u32| #[trigger]
            with_new(order, items).contains(pid) <==> order.contains(pid) || items.contains(pid),
    decreases items.len(),
{
    let result = with_new(order, items);
    if items.len() == 0 {
        assert(result.take(order.len() as int) =~= order);
    } else {
        let before = with_new(order, items.drop_last());
        let last = items.last();
        lemma_with_new(order, items.drop_last());
        assert(result.take(order.len() as int) =~= before.take(order.len() as int));
        assert forall|pid: u32| #[trigger] result.contains(pid) <==> order.contains(pid)
            || items.contains(pid) by {
            assert(items.contains(pid) <==> items.drop_last().contains(pid) || pid == last) by {
                if items.contains(pid) {
                    let k = choose|k: int| 0 <= k < items.len() && items[k] == pid;
                    if k < items.len() - 1 {
                        assert(items.drop_last()[k] == pid);
                    }
                }
                if items.drop_last().contains(pid) {
                    let k = choose|k: int|
                        0 <= k < items.drop_last().len() && items.drop_last()[k] == pid;
                    assert(items[k] == pid);
                }
                assert(items[items.len() - 1] == last);
            }
            if !before.contains(last) {
                assert(result == before.push(last));
                if before.contains(pid) {
                    let k = choose|k: int| 0 <= k < before.len() && before[k] == pid;
                    assert(result[k] == pid);
                }
                assert(result[before.len() as int] == last);
                if result.contains(pid) {
                    let k = choose|k: int| 0 <= k < result.len() && result[k] == pid;
                    if k < before.len() {
                        assert(before[k] == pid);
                    }
                }
            }
        }
    }
}

/// A walk starts at the root, repeats nothing, and only ever grows at its end.
proof fn lemma_walk(tree: Map<u32, Seq<u32>>, root: u32, steps: nat)
    ensures
        walk(tree, root, steps).no_duplicates(),
        walk(tree, root, steps).len() > 0,
        walk(tree, root, steps)[0] == root,
        steps > 0 ==> {
            let before = walk(tree, root, (steps - 1) as nat);
            &&& walk(tree, root, steps).len() >= before.len()
            &&& walk(tree, root, steps).take(before.len() as int) == before
        },
    decreases steps,
{
    if steps > 0 {
        let before = walk(tree, root, (steps - 1) as nat);
        lemma_walk(tree, root, (steps - 1) as nat);
        if steps - 1 < before.len() {
            lemma_with_new(before, children_of(tree, before[steps - 1]));
            assert(walk(tree, root, steps).take(before.len() as int)[0] == before[0]);
        } else {
            assert(before.take(before.len() as int) =~= before);
        }
    }
}

/// A walk that has looked at everything it met stays as it is.
proof fn lemma_walk_ended(tree: Map<u32, Seq<u32>>, root: u32, steps: nat, more: nat)
    requires
        walk(tree, root, steps).len() <= steps <= more,
    ensures
        walk(tree, root, more) == walk(tree, root, steps),
    decreases more,
{
    if steps < more {
        lemma_walk_ended(tree, root, steps, (more - 1) as nat);
    }
}

/// The processes below `root`, level by level.
pub fn descendant_ids(root: u32, children: &HashMap<u32, Vec<u32>>) -> (result: Vec<u32>)
    ensures
        result@ == descendants(lists(children@), root),
{
    let ghost tree = lists(children@);
    let mut order: Vec<u32> = Vec::new();
    let mut visited: HashSet<u32> = HashSet::new();
    order.push(root);
    visited.insert(root);
    let mut next: usize = 0;
    assert(order@ =~= walk(tree, root, 0));
    assert(order@[0] == root);
    assert(visited@ =~= order@.to_set());
    while next < order.len()
        invariant
            next <= order@.len(),
            tree == lists(children@),
            order@ == walk(tree, root, next as nat),
            visited@ == order@.to_set(),
        decreases 0x1_0000_0000 - next,
    {
        proof {
            lemma_walk(tree, root, next as nat);
            lemma_distinct_pids(order@);
        }
        let ghost start = order@;
        if let Some(items) = children.get(&order[next]) {
            let ghost list = items@;
            assert(list == children_of(tree, start[next as int]));
            assert(list.take(0) =~= Seq::empty());
            for i in 0..items.len()
                invariant
                    next < start.len(),
                    list == items@,
                    start.no_duplicates(),
                    order@ == with_new(start, list.take(i as int)),
                    visited@ == order@.to_set(),
            {
                assert(list.take(i + 1).drop_last() =~= list.take(i as int));
                let child: u32 = items[i];
                let ghost before = order@;
                if visited.insert(child) {
                    order.push(child);
                    assert(order@.to_set() =~= before.to_set().insert(child)) by {
                        assert forall|pid: u32| order@.contains(pid) <==> before.contains(pid)
                            || pid == child by {
                            if before.contains(pid) {
                                let k = choose|k: int| 0 <= k < before.len() && before[k] == pid;
                                assert(order@[k] == pid);
                            }
                            assert(order@[before.len() as int] == child);
                        }
                    }
                } else {
                    assert(before.to_set().insert(child) =~= before.to_set());
                }
            }
            assert(list.take(list.len() as int) =~= list);
            proof {
                lemma_with_new(start, list);
            }
        }
        next = next + 1;
    }
    proof {
        lemma_walk(tree, root, next as nat);
        lemma_distinct_pids(order@);
        lemma_walk_ended(tree, root, next as nat, 0x1_0000_0000);
    }
    order.remove(0);
    assert(order@ =~= descendants(tree, root));
    order
}

/// The CPU time of `root` and all that is below it, capped at the largest number of 64 bits.
pub fn process_tree_cpu_ticks(
    root: u32,
    by_id: &HashMap<u32, &ProcessInfo>,
    children: &HashMap<u32, Vec<u32>>,
) -> (result: u64)
    ensures
        result == tree_ticks(known(by_id@), lists(children@), root),
{
    let mut pids = descendant_ids(root, children);
    pids.push(root);
    let mut total: u64 = 0;
    for i in 0..pids.len()
        invariant
            total == {
                let sum = total_ticks(known(by_id@), pids@.take(i as int));
                if sum < u64::MAX {
                    sum
                } else {
                    u64::MAX as nat
                }
            },
    {
        assert(pids@.take(i + 1).drop_last() =~= pids@.take(i as int));
        if let Some(process) = by_id.get(&pids[i]) {
            assert(known(by_id@)[pids@[i as int]] == **process);
            total = total.saturating_add(process.cpu_ticks);
        }
    }
    assert(pids@.take(pids@.len() as int) =~= pids@);
    total
}

// ---------------------------------------------------------------------------------------------
// Laws
// ---------------------------------------------------------------------------------------------
/// A way down the tree, each process a child of the one before it.
pub open spec fn is_path(tree: Map<u32, Seq<u32>>, path: Seq<u32>) -> bool {
    &&& path.len() > 0
    &&& forall|i: int|
        0 < i < path.len() ==> children_of(tree, path[i - 1]).contains(#[trigger] path[i])
}

/// There is a way down the tree from `root` to `pid`.
pub open spec fn reaches(tree: Map<u32, Seq<u32>>, root: u32, pid: u32) -> bool {
    exists|path: Seq<u32>| #[trigger]
        is_path(tree, path) && path[0] == root && path.last() == pid
}

/// All that a walk meets can be reached from its root.
proof fn lemma_walk_is_reachable(tree: Map<u32, Seq<u32>>, root: u32, steps: nat, pid: u32)
    requires
        walk(tree, root, steps).contains(pid),
    ensures
        reaches(tree, root, pid),
    decreases steps,
{
    if steps == 0 {
        let path = seq![root];
        assert(is_path(tree, path));
        assert(path.last() == pid);
    } else {
        let before = walk(tree, root, (steps - 1) as nat);
        if before.contains(pid) {
            lemma_walk_is_reachable(tree, root, (steps - 1) as nat, pid);
        } else {
            lemma_walk(tree, root, (steps - 1) as nat);
            let parent = before[steps - 1];
            lemma_with_new(before, children_of(tree, parent));
            assert(before.contains(parent));
            lemma_walk_is_reachable(tree, root, (steps - 1) as nat, parent);
            let upper = choose|path: Seq<u32>| #[trigger]
                is_path(tree, path) && path[0] == root && path.last() == parent;
            let path = upper.push(pid);
            assert forall|i: int| 0 < i < path.len() implies children_of(
                tree,
                path[i - 1],
            ).contains(#[trigger] path[i]) by {
                if i < upper.len() {
                    assert(path[i] == upper[i]);
                }
            }
            assert(is_path(tree, path));
        }
    }
}

/// A walk never forgets what it has met, and has met the children of what it has looked at.
proof fn lemma_walk_is_closed(
    tree: Map<u32, Seq<u32>>,
    root: u32,
    steps: nat,
    at: int,
    child: u32,
)
    requires
        0 <= at < steps,
        at < walk(tree, root, steps).len(),
        children_of(tree, walk(tree, root, steps)[at]).contains(child),
    ensures
        walk(tree, root, steps).contains(child),
    decreases steps,
{
    let order = walk(tree, root, steps);
    let before = walk(tree, root, (steps - 1) as nat);
    lemma_walk(tree, root, (steps - 1) as nat);
    lemma_walk(tree, root, steps);
    if at < before.len() {
        assert(order[at] == order.take(before.len() as int)[at]);
        if at < steps - 1 {
            lemma_walk_is_closed(tree, root, (steps - 1) as nat, at, child);
            let k = choose|k: int| 0 <= k < before.len() && before[k] == child;
            assert(order[k] == order.take(before.len() as int)[k]);
        } else {
            lemma_with_new(before, children_of(tree, before[steps - 1]));
        }
    }
}

/// What can be reached from the root is met by a walk that looks at all it meets.
proof fn lemma_reachable_is_met(tree: Map<u32, Seq<u32>>, root: u32, path: Seq<u32>)
    requires
        is_path(tree, path),
        path[0] == root,
    ensures
        walk(tree, root, 0x1_0000_0000).contains(path.last()),
    decreases path.len(),
{
    let order = walk(tree, root, 0x1_0000_0000);
    lemma_walk(tree, root, 0x1_0000_0000);
    lemma_distinct_pids(order);
    if path.len() == 1 {
        assert(order[0] == root);
    } else {
        let upper = path.drop_last();
        assert forall|i: int| 0 < i < upper.len() implies children_of(
            tree,
            upper[i - 1],
        ).contains(#[trigger] upper[i]) by {
            assert(upper[i] == path[i]);
        }
        lemma_reachable_is_met(tree, root, upper);
        let at = choose|k: int| 0 <= k < order.len() && order[k] == upper.last();
        assert(children_of(tree, path[path.len() - 2]).contains(path[path.len() - 1]));
        lemma_walk_is_closed(tree, root, 0x1_0000_0000, at, path.last());
    }
}

/// The descendants of a process are those other processes to which a way leads down the tree,
/// each of them once, however the links run.
pub proof fn law_descendants_are_what_is_below(tree: Map<u32, Seq<u32>>, root: u32)
    ensures
        descendants(tree, root).no_duplicates(),
        !descendants(tree, root).contains(root),
        forall|pid: u32| #[trigger]
            descendants(tree, root).contains(pid) <==> pid != root && reaches(tree, root, pid),
{
    let order = walk(tree, root, 0x1_0000_0000);
    let below = descendants(tree, root);
    lemma_walk(tree, root, 0x1_0000_0000);
    assert forall|i: int, j: int| 0 <= i < below.len() && 0 <= j < below.len() && i != j implies below[i]
        != below[j] by {
        assert(below[i] == order[i + 1]);
        assert(below[j] == order[j + 1]);
    }
    assert forall|pid: u32| #[trigger] below.contains(pid) <==> pid != root && reaches(
        tree,
        root,
        pid,
    ) by {
        if below.contains(pid) {
            let k = choose|k: int| 0 <= k < below.len() && below[k] == pid;
            assert(order[k + 1] == pid);
            lemma_walk_is_reachable(tree, root, 0x1_0000_0000, pid);
        }
        if pid != root && reaches(tree, root, pid) {
            let path = choose|path: Seq<u32>| #[trigger]
                is_path(tree, path) && path[0] == root && path.last() == pid;
            lemma_reachable_is_met(tree, root, path);
            let k = choose|k: int| 0 <= k < order.len() && order[k] == pid;
            assert(below[k - 1] == pid);
        }
    }
}

/// `found` is a chain upwards from a process that was started at `child_started` with `parent`
/// as its parent.
pub open spec fn is_ancestry(
    known: Map<u32, ProcessInfo>,
    parent: u32,
    child_started: u64,
    chain: Seq<u32>,
) -> bool {
    forall|i: int|
        0 <= i < chain.len() ==> {
            &&& #[trigger] chain[i] == if i == 0 {
                parent
            } else {
                known[chain[i - 1]].parent_pid
            }
            &&& chain[i] != 0
            &&& known.contains_key(chain[i])
            &&& 0 < known[chain[i]].started <= if i == 0 {
                child_started
            } else {
                known[chain[i - 1]].started
            }
        }
}

proof fn lemma_ancestry(
    known: Map<u32, ProcessInfo>,
    process: ProcessInfo,
    parent: u32,
    child_started: u64,
    found: Seq<u32>,
)
    requires
        found.len() <= MAX_ANCESTORS,
        found.no_duplicates(),
        is_ancestry(known, process.parent_pid, process.started, found),
        found.len() == 0 ==> parent == process.parent_pid && child_started == process.started,
        found.len() > 0 ==> parent == known[found.last()].parent_pid && child_started
            == known[found.last()].started,
    ensures
        ({
            let chain = ancestor_chain(known, parent, child_started, found);
            &&& chain.len() <= MAX_ANCESTORS
            &&& chain.no_duplicates()
            &&& is_ancestry(known, process.parent_pid, process.started, chain)
        }),
    decreases MAX_ANCESTORS - found.len(),
{
    if !(parent == 0 || found.len() >= MAX_ANCESTORS || found.contains(parent)
        || !known.contains_key(parent) || known[parent].started == 0 || child_started == 0
        || known[parent].started > child_started) {
        let longer = found.push(parent);
        assert forall|i: int| 0 <= i < longer.len() implies {
            &&& #[trigger] longer[i] == if i == 0 {
                process.parent_pid
            } else {
                known[longer[i - 1]].parent_pid
            }
            &&& longer[i] != 0
            &&& known.contains_key(longer[i])
            &&& 0 < known[longer[i]].started <= if i == 0 {
                process.started
            } else {
                known[longer[i - 1]].started
            }
        } by {
            if i < found.len() {
                assert(longer[i] == found[i]);
                if i > 0 {
                    assert(longer[i - 1] == found[i - 1]);
                }
            }
        }
        lemma_ancestry(known, process, known[parent].parent_pid, known[parent].started, longer);
    }
}

/// Each ancestor is the parent of the one before it and was started no later, no ancestor
/// comes twice, and there are no more of them than the limit: a loop of parent PIDs, or a PID
/// that was given out again to a younger process, ends the chain.
pub proof fn law_ancestors_are_older(known: Map<u32, ProcessInfo>, process: ProcessInfo)
    ensures
        ancestors_of(known, process).len() <= MAX_ANCESTORS,
        ancestors_of(known, process).no_duplicates(),
        is_ancestry(known, process.parent_pid, process.started, ancestors_of(known, process)),
{
    lemma_ancestry(known, process, process.parent_pid, process.started, Seq::empty());
}

/// A process knows a child exactly where the child, on its way up, takes it for its parent.
pub proof fn law_parents_and_children_agree(processes: Seq<ProcessInfo>, process: ProcessInfo)
    requires
        process.parent_pid != 0,
    ensures
        is_child(by_pid(processes), process, process.parent_pid) <==> ancestors_of(
            by_pid(processes),
            process,
        ).len() > 0,
        is_child(by_pid(processes), process, process.parent_pid) ==> ancestors_of(
            by_pid(processes),
            process,
        )[0] == process.parent_pid,
{
    let known = by_pid(processes);
    law_ancestors_are_older(known, process);
    let chain = ancestors_of(known, process);
    if is_child(known, process, process.parent_pid) {
        lemma_chain_keeps_front(
            known,
            known[process.parent_pid].parent_pid,
            known[process.parent_pid].started,
            seq![process.parent_pid],
        );
        assert(Seq::<u32>::empty().push(process.parent_pid) =~= seq![process.parent_pid]);
        assert(chain.take(1)[0] == process.parent_pid);
    }
}

proof fn lemma_chain_keeps_front(
    known: Map<u32, ProcessInfo>,
    parent: u32,
    child_started: u64,
    found: Seq<u32>,
)
    ensures
        ancestor_chain(known, parent, child_started, found).len() >= found.len(),
        ancestor_chain(known, parent, child_started, found).take(found.len() as int) == found,
    decreases MAX_ANCESTORS - found.len(),
{
    if parent == 0 || found.len() >= MAX_ANCESTORS || found.contains(parent)
        || !known.contains_key(parent) || known[parent].started == 0 || child_started == 0
        || known[parent].started > child_started {
        assert(found.take(found.len() as int) =~= found);
    } else {
        lemma_chain_keeps_front(
            known,
            known[parent].parent_pid,
            known[parent].started,
            found.push(parent),
        );
        let chain = ancestor_chain(known, parent, child_started, found);
        assert(chain.take(found.len() as int) =~= chain.take(found.len() as int + 1).take(
            found.len() as int,
        ));
        assert(found.push(parent).take(found.len() as int) =~= found);
    }
}

/// A map by PID holds processes of the list under their own PIDs.
pub proof fn lemma_by_pid(processes: Seq<ProcessInfo>, pid: u32)
    requires
        by_pid(processes).contains_key(pid),
    ensures
        by_pid(processes)[pid].pid == pid,
        processes.contains(by_pid(processes)[pid]),
    decreases processes.len(),
{
    let last = processes[processes.len() - 1];
    if last.pid == pid {
        assert(processes.contains(last));
    } else {
        let shorter = processes.drop_last();
        lemma_by_pid(shorter, pid);
        let k = choose|k: int| 0 <= k < shorter.len() && shorter[k] == by_pid(shorter)[pid];
        assert(processes[k] == by_pid(processes)[pid]);
    }
}

/// A child of the list is among the children of its parent.
proof fn lemma_child_is_listed(
    known: Map<u32, ProcessInfo>,
    processes: Seq<ProcessInfo>,
    process: ProcessInfo,
    parent: u32,
)
    requires
        processes.contains(process),
        is_child(known, process, parent),
    ensures
        children_among(known, processes, parent).contains(process.pid),
    decreases processes.len(),
{
    let shorter = processes.drop_last();
    let before = children_among(known, shorter, parent);
    let all = children_among(known, processes, parent);
    let k = choose|k: int| 0 <= k < processes.len() && processes[k] == process;
    if k == processes.len() - 1 {
        assert(all[before.len() as int] == process.pid);
    } else {
        assert(shorter[k] == process);
        lemma_child_is_listed(known, shorter, process, parent);
        let m = choose|m: int| 0 <= m < before.len() && before[m] == process.pid;
        assert(all[m] == process.pid);
    }
}

/// A process is below each of its ancestors: whoever ends an ancestor's tree ends it too.
pub proof fn law_process_is_below_its_ancestors(
    processes: Seq<ProcessInfo>,
    process: ProcessInfo,
    i: int,
)
    requires
        processes.contains(process),
        0 <= i < ancestors_of(by_pid(processes), process).len(),
    ensures
        reaches(
            child_lists(processes),
            ancestors_of(by_pid(processes), process)[i],
            process.pid,
        ),
    decreases i,
{
    let known = by_pid(processes);
    let tree = child_lists(processes);
    let chain = ancestors_of(known, process);
    law_ancestors_are_older(known, process);
    assert(chain[i] != 0);
    if i == 0 {
        lemma_child_is_listed(known, processes, process, chain[0]);
        let path = seq![chain[0], process.pid];
        assert(is_path(tree, path));
        assert(path.last() == process.pid);
    } else {
        law_process_is_below_its_ancestors(processes, process, i - 1);
        let lower = chain[i - 1];
        assert(known.contains_key(lower));
        lemma_by_pid(processes, lower);
        lemma_child_is_listed(known, processes, known[lower], chain[i]);
        let rest = choose|path: Seq<u32>| #[trigger]
            is_path(tree, path) && path[0] == lower && path.last() == process.pid;
        let path = seq![chain[i]] + rest;
        assert forall|n: int| 0 < n < path.len() implies children_of(
            tree,
            path[n - 1],
        ).contains(#[trigger] path[n]) by {
            if n > 1 {
                assert(path[n] == rest[n - 1]);
                assert(path[n - 1] == rest[n - 2]);
            }
        }
        assert(is_path(tree, path));
        assert(path.last() == process.pid);
    }
}

/// A process can be reached from itself.
pub proof fn lemma_reaches_itself(tree: Map<u32, Seq<u32>>, pid: u32)
    ensures
        reaches(tree, pid, pid),
{
    let path = seq![pid];
    assert(is_path(tree, path));
    assert(path.last() == pid);
}

/// What is below what is below a process is below the process.
pub proof fn law_below_can_be_chained(tree: Map<u32, Seq<u32>>, top: u32, middle: u32, pid: u32)
    requires
        reaches(tree, top, middle),
        reaches(tree, middle, pid),
    ensures
        reaches(tree, top, pid),
{
    let upper = choose|path: Seq<u32>| #[trigger]
        is_path(tree, path) && path[0] == top && path.last() == middle;
    let lower = choose|path: Seq<u32>| #[trigger]
        is_path(tree, path) && path[0] == middle && path.last() == pid;
    let path = upper + lower.drop_first();
    assert forall|n: int| 0 < n < path.len() implies children_of(tree, path[n - 1]).contains(
        #[trigger] path[n],
    ) by {
        if n < upper.len() {
            assert(path[n] == upper[n]);
        } else {
            assert(path[n] == lower[n - upper.len() + 1]);
            assert(path[n - 1] == lower[n - upper.len()]);
        }
    }
    assert(is_path(tree, path));
    assert(path.last() == pid);
}

/// No PID has two parents.
pub open spec fn one_parent_each(tree: Map<u32, Seq<u32>>) -> bool {
    forall|a: u32, b: u32, child: u32|
        #![trigger children_of(tree, a).contains(child), children_of(tree, b).contains(child)]
        children_of(tree, a).contains(child) && children_of(tree, b).contains(child) ==> a == b
}

/// No way leads back to `root` from what is below it.
pub open spec fn no_way_back(tree: Map<u32, Seq<u32>>, root: u32) -> bool {
    forall|pid: u32| #[trigger] reaches(tree, pid, root) && reaches(tree, root, pid) ==> pid == root
}

/// No PID occurs twice.
pub open spec fn distinct_pids(processes: Seq<ProcessInfo>) -> bool {
    forall|i: int, j: int|
        0 <= i < j < processes.len() ==> (#[trigger] processes[i]).pid != (
        #[trigger] processes[j]).pid
}

/// What is listed as a child is a process of the list with that parent, by a link that counts.
proof fn lemma_listed_child(
    known: Map<u32, ProcessInfo>,
    processes: Seq<ProcessInfo>,
    parent: u32,
    child: u32,
) -> (at: int)
    requires
        children_among(known, processes, parent).contains(child),
    ensures
        0 <= at < processes.len(),
        processes[at].pid == child,
        is_child(known, processes[at], parent),
    decreases processes.len(),
{
    let all = children_among(known, processes, parent);
    let k = choose|k: int| 0 <= k < all.len() && all[k] == child;
    let before = children_among(known, processes.drop_last(), parent);
    if k < before.len() {
        assert(before[k] == child);
        lemma_listed_child(known, processes.drop_last(), parent, child)
    } else {
        processes.len() - 1
    }
}

/// In a snapshot in which no PID occurs twice, no PID has two parents.
pub proof fn law_distinct_pids_have_one_parent(processes: Seq<ProcessInfo>)
    requires
        distinct_pids(processes),
    ensures
        one_parent_each(child_lists(processes)),
{
    let tree = child_lists(processes);
    assert forall|a: u32, b: u32, child: u32|
        #![trigger children_of(tree, a).contains(child), children_of(tree, b).contains(child)]
        children_of(tree, a).contains(child) && children_of(tree, b).contains(child) implies a
        == b by {
        let i = lemma_listed_child(by_pid(processes), processes, a, child);
        let j = lemma_listed_child(by_pid(processes), processes, b, child);
        if i < j {
            assert(processes[i].pid != processes[j].pid);
        } else if j < i {
            assert(processes[j].pid != processes[i].pid);
        }
    }
}

/// Whatever a walk meets after its root, it meets as a child of something that it met before.
proof fn lemma_met_through_parent(tree: Map<u32, Seq<u32>>, root: u32, steps: nat, at: int) -> (from:
    int)
    requires
        0 < at < walk(tree, root, steps).len(),
    ensures
        0 <= from < at,
        children_of(tree, walk(tree, root, steps)[from]).contains(walk(tree, root, steps)[at]),
    decreases steps,
{
    let order = walk(tree, root, steps);
    let before = walk(tree, root, (steps - 1) as nat);
    lemma_walk(tree, root, steps);
    lemma_walk(tree, root, (steps - 1) as nat);
    assert(order.take(before.len() as int) == before);
    if at < before.len() {
        let from = lemma_met_through_parent(tree, root, (steps - 1) as nat, at);
        assert(order.take(before.len() as int)[at] == order[at]);
        assert(order.take(before.len() as int)[from] == order[from]);
        from
    } else {
        let parent = before[steps - 1];
        lemma_with_new(before, children_of(tree, parent));
        assert(order.take(before.len() as int)[steps - 1] == order[steps - 1]);
        assert(order.contains(order[at]));
        if before.contains(order[at]) {
            let k = choose|k: int| 0 <= k < before.len() && before[k] == order[at];
            assert(order.take(before.len() as int)[k] == order[k]);
        }
        steps - 1
    }
}

/// On a way down that does not come back to the root, a walk goes from left to right.
proof fn lemma_way_down_goes_right(tree: Map<u32, Seq<u32>>, root: u32, path: Seq<u32>, at: int) -> (to:
    int)
    requires
        one_parent_each(tree),
        no_way_back(tree, root),
        is_path(tree, path),
        0 < at < walk(tree, root, 0x1_0000_0000).len(),
        path[0] == walk(tree, root, 0x1_0000_0000)[at],
    ensures
        at <= to < walk(tree, root, 0x1_0000_0000).len(),
        path.last() == walk(tree, root, 0x1_0000_0000)[to],
    decreases path.len(),
{
    let order = walk(tree, root, 0x1_0000_0000);
    lemma_walk(tree, root, 0x1_0000_0000);
    if path.len() == 1 {
        at
    } else {
        let upper = path.drop_last();
        assert forall|i: int| 0 < i < upper.len() implies children_of(
            tree,
            upper[i - 1],
        ).contains(#[trigger] upper[i]) by {
            assert(upper[i] == path[i]);
        }
        let middle = lemma_way_down_goes_right(tree, root, upper, at);
        let parent = order[middle];
        let child = path.last();
        assert(children_of(tree, path[path.len() - 2]).contains(path[path.len() - 1]));
        lemma_distinct_pids(order);
        lemma_walk_is_closed(tree, root, 0x1_0000_0000, middle, child);
        let to = choose|k: int| 0 <= k < order.len() && order[k] == child;
        if to == 0 {
            assert(order.contains(order[at]));
            lemma_walk_is_reachable(tree, root, 0x1_0000_0000, order[at]);
            assert(reaches(tree, order[at], root));
            assert(order[at] == root);
        }
        let from = lemma_met_through_parent(tree, root, 0x1_0000_0000, to);
        assert(children_of(tree, parent).contains(child));
        assert(order[from] == parent);
        to
    }
}

/// Level by level means that whatever is below a process comes after it, where no PID has two
/// parents and no way leads back to the root.
pub proof fn law_below_comes_after(tree: Map<u32, Seq<u32>>, root: u32, j: int, k: int)
    requires
        one_parent_each(tree),
        no_way_back(tree, root),
        0 <= j < descendants(tree, root).len(),
        0 <= k < descendants(tree, root).len(),
        j != k,
        reaches(tree, descendants(tree, root)[j], descendants(tree, root)[k]),
    ensures
        j < k,
{
    let order = walk(tree, root, 0x1_0000_0000);
    let below = descendants(tree, root);
    lemma_walk(tree, root, 0x1_0000_0000);
    let path = choose|path: Seq<u32>| #[trigger]
        is_path(tree, path) && path[0] == below[j] && path.last() == below[k];
    assert(below[j] == order[j + 1] && below[k] == order[k + 1]);
    let to = lemma_way_down_goes_right(tree, root, path, j + 1);
    assert(order[to] == order[k + 1]);
}

/// Where no PID occurs twice, each process is found under its PID.
pub proof fn lemma_known_under_its_pid(processes: Seq<ProcessInfo>, i: int)
    requires
        distinct_pids(processes),
        0 <= i < processes.len(),
    ensures
        by_pid(processes).contains_key(processes[i].pid),
        by_pid(processes)[processes[i].pid] == processes[i],
    decreases processes.len(),
{
    let last = processes.len() - 1;
    if i < last {
        let shorter = processes.drop_last();
        assert forall|m: int, n: int| 0 <= m < n < shorter.len() implies (
        #[trigger] shorter[m]).pid != (#[trigger] shorter[n]).pid by {
            assert(shorter[m] == processes[m] && shorter[n] == processes[n]);
        }
        assert(shorter[i] == processes[i]);
        lemma_known_under_its_pid(shorter, i);
        assert(processes[i].pid != processes[last].pid);
    }
}

/// The way up cannot go on from a process that was started at `child_started` with `parent` as
/// its parent.
spec fn way_up_ends(
    known: Map<u32, ProcessInfo>,
    parent: u32,
    child_started: u64,
    found: Seq<u32>,
) -> bool {
    parent == 0 || found.len() >= MAX_ANCESTORS || found.contains(parent) || !known.contains_key(
        parent,
    ) || known[parent].started == 0 || child_started == 0 || known[parent].started > child_started
}

/// The way up is followed to its end.
proof fn lemma_way_up_ends(
    known: Map<u32, ProcessInfo>,
    parent: u32,
    child_started: u64,
    found: Seq<u32>,
)
    ensures
        ({
            let chain = ancestor_chain(known, parent, child_started, found);
            &&& chain.len() >= found.len()
            &&& chain.len() == found.len() ==> way_up_ends(known, parent, child_started, chain)
            &&& chain.len() > found.len() ==> way_up_ends(
                known,
                known[chain.last()].parent_pid,
                known[chain.last()].started,
                chain,
            )
        }),
    decreases MAX_ANCESTORS - found.len(),
{
    if !way_up_ends(known, parent, child_started, found) {
        let next = found.push(parent);
        lemma_way_up_ends(known, known[parent].parent_pid, known[parent].started, next);
        lemma_chain_keeps_front(known, known[parent].parent_pid, known[parent].started, next);
        let chain = ancestor_chain(known, parent, child_started, found);
        assert(chain.take(next.len() as int) == next);
        if chain.len() == next.len() {
            assert(chain.take(next.len() as int) =~= chain);
            assert(chain.last() == parent);
        }
    }
}

/// A chain of as many known PIDs as there are processes holds all of them.
proof fn lemma_full_chain_holds_all(processes: Seq<ProcessInfo>, chain: Seq<u32>, pid: u32)
    requires
        chain.no_duplicates(),
        processes.len() <= chain.len(),
        forall|i: int|
            0 <= i < chain.len() ==> by_pid(processes).contains_key(#[trigger] chain[i]),
        by_pid(processes).contains_key(pid),
    ensures
        chain.contains(pid),
{
    let pids = processes.map_values(|process: ProcessInfo| process.pid);
    assert forall|known: u32| by_pid(processes).contains_key(known) implies pids.contains(known) by {
        lemma_by_pid(processes, known);
        let k = choose|k: int|
            0 <= k < processes.len() && processes[k] == by_pid(processes)[known];
        assert(pids[k] == known);
    }
    chain.unique_seq_to_set();
    pids.lemma_cardinality_of_set();
    vstd::seq_lib::seq_to_set_is_finite(chain);
    vstd::seq_lib::seq_to_set_is_finite(pids);
    assert forall|known: u32| chain.to_set().contains(known) implies pids.to_set().contains(
        known,
    ) by {
        let k = choose|k: int| 0 <= k < chain.len() && chain[k] == known;
        assert(by_pid(processes).contains_key(chain[k]));
    }
    assert(chain.to_set().subset_of(pids.to_set()));
    vstd::set_lib::lemma_len_subset(chain.to_set(), pids.to_set());
    vstd::set_lib::lemma_subset_equality(chain.to_set(), pids.to_set());
    assert(chain.to_set().contains(pid));
}

/// The limit does not cut off the ancestors of a process: they end before it, or there are no
/// more processes than it allows.
pub open spec fn within_limit(processes: Seq<ProcessInfo>, process: ProcessInfo) -> bool {
    ancestors_of(by_pid(processes), process).len() < MAX_ANCESTORS || processes.len()
        <= MAX_ANCESTORS
}

/// A process with PID zero, if there is one, is nobody's parent by a link that counts.
pub open spec fn zero_has_no_children(processes: Seq<ProcessInfo>) -> bool {
    by_pid(processes).contains_key(0) ==> by_pid(processes)[0].started == 0
}

/// Each ancestor but the first is the parent of the one before it.
proof fn lemma_next_ancestor(known: Map<u32, ProcessInfo>, process: ProcessInfo, m: int)
    requires
        0 <= m < ancestors_of(known, process).len() - 1,
    ensures
        ancestors_of(known, process)[m + 1] == known[ancestors_of(known, process)[m]].parent_pid,
{
    law_ancestors_are_older(known, process);
}

/// Every ancestor is known, and none comes twice.
pub proof fn lemma_ancestors_are_known(known: Map<u32, ProcessInfo>, process: ProcessInfo)
    ensures
        ancestors_of(known, process).no_duplicates(),
        forall|i: int|
            0 <= i < ancestors_of(known, process).len() ==> known.contains_key(
                #[trigger] ancestors_of(known, process)[i],
            ),
{
    law_ancestors_are_older(known, process);
}

/// The parent of an ancestor, by a link that counts, is an ancestor too.
proof fn lemma_ancestors_are_closed(
    processes: Seq<ProcessInfo>,
    process: ProcessInfo,
    lower: u32,
    upper: u32,
)
    requires
        zero_has_no_children(processes),
        within_limit(processes, process),
        ancestors_of(by_pid(processes), process).contains(lower),
        is_child(by_pid(processes), by_pid(processes)[lower], upper),
    ensures
        ancestors_of(by_pid(processes), process).contains(upper),
{
    let known = by_pid(processes);
    let chain = ancestors_of(known, process);
    lemma_way_up_ends(known, process.parent_pid, process.started, Seq::empty());
    lemma_ancestors_are_known(known, process);
    let m = choose|m: int| 0 <= m < chain.len() && chain[m] == lower;
    if m < chain.len() - 1 {
        lemma_next_ancestor(known, process, m);
    } else if !chain.contains(upper) {
        assert(chain.last() == lower);
        lemma_full_chain_holds_all(processes, chain, upper);
    }
}

/// On a way down to a process, each step before it is one of its ancestors.
proof fn lemma_way_down_is_above(
    processes: Seq<ProcessInfo>,
    process: ProcessInfo,
    path: Seq<u32>,
    i: int,
)
    requires
        distinct_pids(processes),
        zero_has_no_children(processes),
        processes.contains(process),
        within_limit(processes, process),
        is_path(child_lists(processes), path),
        path.last() == process.pid,
        0 <= i < path.len() - 1,
    ensures
        ancestors_of(by_pid(processes), process).contains(path[i]),
    decreases path.len() - i,
{
    let known = by_pid(processes);
    let lower = path[i + 1];
    assert(children_of(child_lists(processes), path[i]).contains(lower));
    let at = lemma_listed_child(known, processes, path[i], lower);
    lemma_known_under_its_pid(processes, at);
    if i == path.len() - 2 {
        let k = choose|k: int| 0 <= k < processes.len() && processes[k] == process;
        lemma_known_under_its_pid(processes, k);
        law_parents_and_children_agree(processes, process);
        assert(ancestors_of(known, process)[0] == path[i]);
    } else {
        lemma_way_down_is_above(processes, process, path, i + 1);
        lemma_ancestors_are_closed(processes, process, lower, path[i]);
    }
}

/// Above and below are one relation seen from its two ends: one process is below another exactly
/// where that one is among its ancestors. This is so in a snapshot in which no PID occurs twice
/// and PID zero is nobody's parent, for a process whose ancestors the limit does not cut off.
pub proof fn law_above_and_below_agree(
    processes: Seq<ProcessInfo>,
    process: ProcessInfo,
    upper: u32,
)
    requires
        distinct_pids(processes),
        zero_has_no_children(processes),
        processes.contains(process),
        within_limit(processes, process),
        upper != process.pid,
    ensures
        descendants(child_lists(processes), upper).contains(process.pid) <==> ancestors_of(
            by_pid(processes),
            process,
        ).contains(upper),
{
    let tree = child_lists(processes);
    let chain = ancestors_of(by_pid(processes), process);
    law_descendants_are_what_is_below(tree, upper);
    if chain.contains(upper) {
        let i = choose|i: int| 0 <= i < chain.len() && chain[i] == upper;
        law_process_is_below_its_ancestors(processes, process, i);
    }
    if reaches(tree, upper, process.pid) {
        let path = choose|path: Seq<u32>| #[trigger]
            is_path(tree, path) && path[0] == upper && path.last() == process.pid;
        assert(path.len() > 1);
        lemma_way_down_is_above(processes, process, path, 0);
    }
}

/// Under each PID of the list stands the last process that has it, and there are no other PIDs.
pub proof fn law_last_process_of_a_pid_stands(processes: Seq<ProcessInfo>, pid: u32, k: int)
    requires
        0 <= k < processes.len(),
        processes[k].pid == pid,
        forall|j: int| k < j < processes.len() ==> (#[trigger] processes[j]).pid != pid,
    ensures
        by_pid(processes).contains_key(pid),
        by_pid(processes)[pid] == processes[k],
    decreases processes.len(),
{
    let last = processes.len() - 1;
    if k < last {
        let shorter = processes.drop_last();
        assert(processes[last].pid != pid);
        assert forall|j: int| k < j < shorter.len() implies (#[trigger] shorter[j]).pid != pid by {
            assert(shorter[j] == processes[j]);
        }
        assert(shorter[k] == processes[k]);
        law_last_process_of_a_pid_stands(shorter, pid, k);
    }
}

/// `child` is started under `parent` by a process of the list, both creation times are known, and
/// the parent is not the younger.
pub open spec fn is_linked(processes: Seq<ProcessInfo>, parent: u32, child: u32, k: int) -> bool {
    &&& 0 <= k < processes.len()
    &&& processes[k].pid == child
    &&& processes[k].parent_pid == parent
    &&& by_pid(processes).contains_key(parent)
    &&& 0 < by_pid(processes)[parent].started <= processes[k].started
}

/// The children of a process are those that were started under it and not before it.
pub proof fn law_children_were_started_under_their_parent(
    processes: Seq<ProcessInfo>,
    parent: u32,
    child: u32,
)
    ensures
        children_of(child_lists(processes), parent).contains(child) <==> exists|k: int| #[trigger]
            is_linked(processes, parent, child, k),
{
    let known = by_pid(processes);
    let list = children_among(known, processes, parent);
    assert(children_of(child_lists(processes), parent) =~= list);
    if list.contains(child) {
        let k = lemma_listed_child(known, processes, parent, child);
        assert(is_linked(processes, parent, child, k));
    }
    if exists|k: int| #[trigger] is_linked(processes, parent, child, k) {
        let k = choose|k: int| #[trigger] is_linked(processes, parent, child, k);
        lemma_child_is_listed(known, processes, processes[k], parent);
    }
}

/// The way up ends only for a reason: there are 64 ancestors, or the next parent is PID zero, is
/// not known, was met before, is younger than its child, or a creation time is not known.
pub proof fn law_way_up_ends_for_a_reason(known: Map<u32, ProcessInfo>, process: ProcessInfo)
    ensures
        ({
            let chain = ancestors_of(known, process);
            let top = if chain.len() == 0 {
                process
            } else {
                known[chain.last()]
            };
            let next = top.parent_pid;
            chain.len() == 64 || next == 0 || chain.contains(next) || !known.contains_key(next)
                || known[next].started == 0 || top.started == 0 || known[next].started
                > top.started
        }),
{
    lemma_way_up_ends(known, process.parent_pid, process.started, Seq::empty());
    lemma_ancestry(known, process, process.parent_pid, process.started, Seq::empty());
}

/// The CPU times of two lists of PIDs add up, and that of one PID is its process's, or nothing
/// where it is not known.
pub proof fn law_ticks_add_up(known: Map<u32, ProcessInfo>, a: Seq<u32>, b: Seq<u32>, pid: u32)
    ensures
        total_ticks(known, a + b) == total_ticks(known, a) + total_ticks(known, b),
        known.contains_key(pid) ==> total_ticks(known, seq![pid]) == known[pid].cpu_ticks,
        !known.contains_key(pid) ==> total_ticks(known, seq![pid]) == 0,
    decreases b.len(),
{
    reveal_with_fuel(total_ticks, 2);
    assert(seq![pid].drop_last() =~= Seq::empty());
    if b.len() == 0 {
        assert(a + b =~= a);
    } else {
        assert((a + b).drop_last() =~= a + b.drop_last());
        law_ticks_add_up(known, a, b.drop_last(), pid);
    }
}

/// The CPU time of a tree is that of its root and of all below it together, up to the largest
/// number of 64 bits.
pub proof fn law_tree_ticks_are_those_of_all(
    known: Map<u32, ProcessInfo>,
    tree: Map<u32, Seq<u32>>,
    root: u32,
)
    ensures
        ({
            let all = total_ticks(known, seq![root]) + total_ticks(known, descendants(tree, root));
            &&& all <= 0xffff_ffff_ffff_ffff ==> tree_ticks(known, tree, root) == all
            &&& all > 0xffff_ffff_ffff_ffff ==> tree_ticks(known, tree, root)
                == 0xffff_ffff_ffff_ffff
        }),
{
    let below = descendants(tree, root);
    law_ticks_add_up(known, below, seq![root], root);
    assert(below + seq![root] =~= below.push(root));
}

proof fn lemma_labels_up_to(
    known: Map<u32, ProcessInfo>,
    ancestors: Seq<u32>,
    owner: Option<u32>,
    count: int,
)
    requires
        0 <= count <= ancestors.len(),
        forall|i: int| 0 <= i < count ==> known.contains_key(#[trigger] ancestors[i]),
        forall|i: int| 0 <= i < count - 1 ==> Some(#[trigger] ancestors[i]) != owner,
        count == ancestors.len() || count > 0 && Some(ancestors[count - 1]) == owner,
    ensures
        ancestor_labels(known, ancestors, owner) == Seq::new(
            count as nat,
            |i: int| label(known[ancestors[i]].name@, known[ancestors[i]].pid),
        ),
    decreases count,
{
    let wanted = Seq::new(
        count as nat,
        |i: int| label(known[ancestors[i]].name@, known[ancestors[i]].pid),
    );
    if count > 0 {
        assert(known.contains_key(ancestors[0]));
        if owner == Some(ancestors[0]) {
            if count > 1 {
                assert(Some(ancestors[0]) != owner);
            }
            assert(ancestor_labels(known, ancestors, owner) =~= wanted);
        } else {
            let rest = ancestors.drop_first();
            assert forall|i: int| 0 <= i < count - 1 implies known.contains_key(
                #[trigger] rest[i],
            ) by {
                assert(rest[i] == ancestors[i + 1]);
            }
            assert forall|i: int| 0 <= i < count - 2 implies Some(#[trigger] rest[i]) != owner by {
                assert(rest[i] == ancestors[i + 1]);
            }
            lemma_labels_up_to(known, rest, owner, count - 1);
            assert(ancestor_labels(known, ancestors, owner) =~= wanted);
        }
    } else {
        assert(ancestor_labels(known, ancestors, owner) =~= wanted);
    }
}

/// A path runs from the owner, or from the topmost ancestor where there is none, down to the
/// process. Each step shows the name and the PID, and arrows stand between them.
pub proof fn law_path_runs_down_to_the_process(
    known: Map<u32, ProcessInfo>,
    process: ProcessInfo,
    ancestors: Seq<u32>,
    owner: Option<u32>,
    count: int,
)
    requires
        0 <= count <= ancestors.len(),
        forall|i: int| 0 <= i < count ==> known.contains_key(#[trigger] ancestors[i]),
        forall|i: int| 0 <= i < count - 1 ==> Some(#[trigger] ancestors[i]) != owner,
        count == ancestors.len() || count > 0 && Some(ancestors[count - 1]) == owner,
    ensures
        relation_text(known, process, ancestors, owner) == text::joined(
            Seq::new(
                count as nat,
                |i: int|
                    known[ancestors[count - 1 - i]].name@ + " (PID "@ + decimal::decimal(
                        known[ancestors[count - 1 - i]].pid as nat,
                    ) + ")"@,
            ).push(
                process.name@ + " (PID "@ + decimal::decimal(process.pid as nat) + ")"@,
            ),
            "  →  "@,
        ),
{
    lemma_labels_up_to(known, ancestors, owner, count);
    let labels = ancestor_labels(known, ancestors, owner);
    let upward = seq![label(process.name@, process.pid)] + labels;
    let wanted = Seq::new(
        count as nat,
        |i: int|
            known[ancestors[count - 1 - i]].name@ + " (PID "@ + decimal::decimal(
                known[ancestors[count - 1 - i]].pid as nat,
            ) + ")"@,
    ).push(process.name@ + " (PID "@ + decimal::decimal(process.pid as nat) + ")"@);
    assert(upward.reverse() =~= wanted);
}

} // verus!
