use std::collections::HashMap;

use codex_process_guardian::model::identity;
use codex_process_guardian::tree::{
    ancestors, build_children, descendant_ids, index_by_pid, listed, process_tree_cpu_ticks,
    relation_path,
};
use codex_process_guardian::ProcessInfo;

fn make(pid: u32, parent_pid: u32, started: u64) -> ProcessInfo {
    ProcessInfo {
        pid,
        parent_pid,
        name: format!("p{pid}.exe"),
        command_line: String::new(),
        started,
        cpu_ticks: pid as u64 * 100,
    }
}

#[test]
fn identity_joins_pid_and_creation_time() {
    assert_eq!(identity(&make(42, 0, 7)), "42|7");
    assert_ne!(identity(&make(4, 0, 27)), identity(&make(42, 0, 7)));
}

#[test]
fn ancestors_go_up_to_the_root() {
    let processes = [make(1, 0, 1), make(2, 1, 2), make(3, 2, 3)];
    let by_id = index_by_pid(&processes);
    assert_eq!(by_id.len(), 3);
    assert_eq!(ancestors(&processes[2], &by_id), vec![2, 1]);
    assert_eq!(ancestors(&processes[0], &by_id), Vec::<u32>::new());
}

#[test]
fn a_younger_parent_is_none() {
    let processes = [make(1, 0, 9), make(2, 1, 2)];
    let by_id = index_by_pid(&processes);
    assert_eq!(ancestors(&processes[1], &by_id), Vec::<u32>::new());
    assert!(build_children(&processes).get(&1).is_none());
}

#[test]
fn circles_end() {
    let processes = [make(1, 2, 5), make(2, 1, 5)];
    let by_id = index_by_pid(&processes);
    assert!(ancestors(&processes[0], &by_id).len() <= 2);
    let children = build_children(&processes);
    let below = descendant_ids(1, &children);
    assert_eq!(below, vec![2]);
}

#[test]
fn no_more_than_sixty_four_ancestors() {
    let processes: Vec<ProcessInfo> =
        (1..=100_u32).map(|pid| make(pid, pid - 1, pid as u64)).collect();
    let by_id = index_by_pid(&processes);
    assert_eq!(ancestors(&processes[99], &by_id).len(), 64);
    assert_eq!(descendant_ids(1, &build_children(&processes)).len(), 99);
}

#[test]
fn paths_without_owner_start_at_the_top() {
    let processes = [make(1, 0, 1), make(2, 1, 2)];
    let by_id: HashMap<u32, &ProcessInfo> = index_by_pid(&processes);
    let above = ancestors(&processes[1], &by_id);
    assert_eq!(
        relation_path(&processes[1], &above, &by_id, None),
        "p1.exe (PID 1)  →  p2.exe (PID 2)"
    );
    assert_eq!(relation_path(&processes[0], &[], &by_id, None), "p1.exe (PID 1)");
}

#[test]
fn cpu_time_of_a_tree_is_the_sum() {
    let processes = [make(1, 0, 1), make(2, 1, 2), make(3, 2, 3), make(4, 0, 4)];
    let by_id = index_by_pid(&processes);
    let children = build_children(&processes);
    assert_eq!(process_tree_cpu_ticks(1, &by_id, &children), 600);
    assert_eq!(process_tree_cpu_ticks(4, &by_id, &children), 400);
    assert_eq!(process_tree_cpu_ticks(99, &by_id, &children), 0);
}

#[test]
fn cpu_time_of_a_tree_is_capped() {
    let mut processes = [make(1, 0, 1), make(2, 1, 2)];
    processes[0].cpu_ticks = u64::MAX;
    let by_id = index_by_pid(&processes);
    let children = build_children(&processes);
    assert_eq!(process_tree_cpu_ticks(1, &by_id, &children), u64::MAX);
}

#[test]
fn ancestors_and_descendants_agree() {
    let processes = [make(1, 0, 1), make(2, 1, 2), make(3, 2, 3), make(4, 2, 3), make(5, 4, 1)];
    let by_id = index_by_pid(&processes);
    let children = build_children(&processes);
    for process in &processes {
        for above in ancestors(process, &by_id) {
            assert!(listed(&descendant_ids(above, &children), process.pid));
        }
    }
    assert!(!listed(&descendant_ids(4, &children), 5));
}

#[test]
fn above_and_below_are_one_relation() {
    let processes = [
        make(1, 5, 7),
        make(2, 1, 7),
        make(3, 2, 8),
        make(4, 2, 1),
        make(5, 2, 7),
        make(6, 6, 9),
        make(7, 0, 3),
    ];
    let by_id = index_by_pid(&processes);
    let children = build_children(&processes);
    for process in &processes {
        for upper in processes.iter().filter(|other| other.pid != process.pid) {
            let below = listed(&descendant_ids(upper.pid, &children), process.pid);
            let above = listed(&ancestors(process, &by_id), upper.pid);
            assert_eq!(below, above, "{} {}", upper.pid, process.pid);
        }
    }
    assert!(listed(&descendant_ids(5, &children), 3));
}
