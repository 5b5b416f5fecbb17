use std::path::PathBuf;

use codex_process_guardian::dialog::{batch_step, batch_text, BatchStep};
use codex_process_guardian::terminate::{
    cleanup_failures, has_exited, process_exists, Step, Termination,
};
use codex_process_guardian::{
    BatchTerminationResult, Category, Entry, Guardian, Paths, ProcessInfo, Status,
};

fn guardian(file: Option<&str>) -> Guardian {
    let paths = Paths {
        data_dir: PathBuf::from("d"),
        state: PathBuf::from("s"),
        log: PathBuf::from("l"),
        config: PathBuf::from("c"),
    };
    Guardian::new(paths, file)
}

fn process(pid: u32, parent_pid: u32) -> ProcessInfo {
    ProcessInfo {
        pid,
        parent_pid,
        name: "node.exe".into(),
        command_line: String::new(),
        started: 100 + pid as u64,
        cpu_ticks: 0,
    }
}

fn entry(pid: u32, status: Status) -> Entry {
    Entry {
        identity: format!("{pid}|{}", 100 + pid),
        pid,
        parent_pid: 0,
        name: "node.exe".into(),
        command_line: String::new(),
        category: Category::ToolServer,
        learned_owned: true,
        first_seen: 0,
        last_seen: 0,
        last_activity: 0,
        cpu_ticks: 0,
        orphan_since: 0,
        status,
        started: 100 + pid as u64,
        owner_pid: 0,
        owner_name: String::new(),
        relation_path: String::new(),
        child_count: 0,
    }
}

fn start() -> Termination {
    guardian(None).terminate(&entry(1, Status::Candidate), false).unwrap()
}

#[test]
fn tree_is_ended_from_below() {
    let mut termination = start();
    assert_eq!(termination.next(), Step::TakeSnapshot);
    termination.on_snapshot(&[process(1, 0), process(2, 1), process(3, 2), process(9, 0)]);
    let mut killed = Vec::new();
    while let Step::Open(pid) = termination.next() {
        termination.on_opened(Some(100 + pid as u64));
        assert_eq!(termination.next(), Step::Kill(pid));
        termination.on_killed(true, 0);
        killed.push(pid);
    }
    assert_eq!(killed, [3, 2, 1]);
    assert_eq!(termination.next(), Step::Finish);
    assert_eq!(termination.outcome(), Ok(3));
    assert_eq!(termination.log_line(), Some("terminated pid=1 count=3".into()));
}

#[test]
fn gone_and_reused_processes_are_left_alone() {
    let mut termination = start();
    termination.on_snapshot(&[process(2, 0)]);
    assert_eq!(termination.outcome(), Err("进程已经退出".into()));
    assert_eq!(termination.log_line(), None);

    let mut termination = start();
    let mut other = process(1, 0);
    other.started = 5;
    termination.on_snapshot(&[other]);
    assert_eq!(termination.next(), Step::Finish);
    assert_eq!(termination.outcome(), Err("PID 已复用，身份校验失败".into()));

    let mut termination = start();
    termination.on_snapshot_failed("denied");
    assert_eq!(termination.outcome(), Err("denied".into()));
}

#[test]
fn failures_are_listed_in_order() {
    let mut termination = start();
    termination.on_snapshot(&[process(1, 0), process(2, 1), process(3, 1), process(4, 1)]);
    assert_eq!(termination.next(), Step::Open(4));
    termination.on_open_failed(false);
    assert_eq!(termination.next(), Step::Open(3));
    termination.on_opened(Some(7));
    assert_eq!(termination.next(), Step::Open(2));
    termination.on_opened(None);
    assert_eq!(termination.next(), Step::Open(1));
    termination.on_opened(Some(101));
    termination.on_killed(true, 258);
    let message = "结束失败，仍存活 PID: [1, 2, 3]";
    assert_eq!(termination.outcome(), Err(message.into()));
    assert_eq!(termination.log_line(), Some(format!("terminate_failed pid=1 {message}")));
}

#[test]
fn automatic_endings_are_not_logged() {
    let guardian = guardian(None);
    let refused = guardian.start_cleanup(&entry(1, Status::Owned)).unwrap_err();
    assert_eq!(refused, "进程仍处于活动宿主树中");
    let mut termination = guardian.start_cleanup(&entry(1, Status::Candidate)).unwrap();
    termination.on_snapshot(&[process(1, 0)]);
    termination.on_open_failed(true);
    assert_eq!(termination.outcome(), Err("结束失败，仍存活 PID: [1]".into()));
    assert_eq!(termination.log_line(), None);
}

#[test]
fn existence_is_told_by_the_snapshot() {
    assert!(process_exists(None, 1));
    assert!(process_exists(Some(&[process(1, 0)]), 1));
    assert!(!process_exists(Some(&[process(1, 0)]), 2));
}

#[test]
fn cleanup_needs_permission() {
    let mut unowned = entry(5, Status::Candidate);
    unowned.learned_owned = false;
    let entries = [
        entry(1, Status::Candidate),
        entry(2, Status::Owned),
        entry(3, Status::OwnedIdleBrowser),
        entry(4, Status::OwnedIdleTool),
        unowned,
        entry(6, Status::GracePeriod),
    ];
    assert!(guardian(None).automatic_cleanup(&entries).positions.is_empty());
    let some = guardian(Some("action=terminate"));
    assert_eq!(some.automatic_cleanup(&entries).positions, [0]);
    let more = guardian(Some("action=terminate\nterminate_owned_idle_tool=on"));
    assert_eq!(more.automatic_cleanup(&entries).positions, [0, 3]);
    let all = guardian(Some(
        "action=terminate\nterminate_owned_idle_tool=1\nterminate_owned_idle_browser=1",
    ));
    let plan = all.automatic_cleanup(&entries);
    let positions = plan.positions;
    assert_eq!(positions, [0, 2, 3]);
    assert_eq!(plan.started.len(), 3);
    for (position, mut termination) in positions.iter().zip(plan.started) {
        let pid = entries[*position].pid;
        assert_eq!(termination.next(), Step::TakeSnapshot);
        termination.on_snapshot(&[process(pid, 0)]);
        assert_eq!(termination.next(), Step::Open(pid));
        termination.on_open_failed(true);
        assert!(termination.outcome().is_err());
        assert_eq!(termination.log_line(), None);
    }
    let outcomes = [Ok(1), Err("a\tb".to_string()), Ok(2)];
    assert_eq!(cleanup_failures(&entries, &positions, &outcomes), ["pid=3 error=a b"]);
}

#[test]
fn batch_ends_each_tree_once() {
    let guardian = guardian(None);
    let entries =
        [entry(1, Status::Candidate), entry(2, Status::Candidate), entry(7, Status::Candidate)];
    let processes = vec![process(1, 0), process(2, 1), process(3, 0)];
    let plan = guardian.terminate_batch(&entries, false, &Ok(processes));
    assert_eq!(plan.roots, [0, 2]);
    assert_eq!(plan.result.requested, 3);
    assert_eq!(plan.result.skipped_overlaps, 1);
    assert_eq!(plan.result.processed_roots, 2);
    let result = plan.finish(&entries, vec![Ok(2), Err("进程已经退出".to_string())]);
    assert_eq!(result.terminated_processes, 2);
    assert_eq!(result.failures, [(7, "进程已经退出".to_string())]);
    assert_eq!(
        batch_text(&result),
        "批量操作完成。\r\n请求：3 项\r\n实际根进程：2 项\r\n因父子重叠跳过：1 项\r\n已结束进程：2 个\r\n失败：1 项\r\n\r\nPID 7: 进程已经退出"
    );
}

#[test]
fn batch_covers_a_chain_by_its_top() {
    let guardian = guardian(None);
    let entries: Vec<Entry> = (1..=100).map(|pid| entry(pid, Status::Candidate)).collect();
    let mut processes: Vec<ProcessInfo> = (1..=100).map(|pid| process(pid, pid - 1)).collect();
    let plan = guardian.terminate_batch(&entries, false, &Ok(processes.clone()));
    assert_eq!(plan.roots, [0]);
    for process in &mut processes {
        process.started = 5;
    }
    let plan = guardian.terminate_batch(&entries, false, &Ok(processes));
    assert_eq!((plan.roots, plan.result.skipped_overlaps), (vec![0], 99));
    let mut circle = vec![process(1, 2), process(2, 1)];
    circle[0].started = 5;
    circle[1].started = 5;
    let plan = guardian.terminate_batch(&entries[..2], false, &Ok(circle));
    assert_eq!((plan.roots.len(), plan.result.skipped_overlaps), (0, 2));
}

#[test]
fn empty_batch_and_failed_snapshot() {
    let guardian = guardian(None);
    let failed: Result<Vec<ProcessInfo>, String> = Err("denied".to_string());
    let empty = guardian.terminate_batch(&[], false, &failed);
    assert!(empty.roots.is_empty() && empty.result.failures.is_empty());
    let plan = guardian.terminate_batch(&[entry(1, Status::Candidate)], false, &failed);
    assert!(plan.roots.is_empty());
    assert_eq!(plan.result.failures, [(0, "进程快照失败：denied".to_string())]);
    assert_eq!(plan.result.requested, 1);
}

#[test]
fn accounts_name_ten_failures() {
    let mut result = BatchTerminationResult::default();
    assert!(batch_text(&result).ends_with("失败：0 项"));
    for pid in 1..=12 {
        result.failures.push((pid, "e".to_string()));
    }
    let text = batch_text(&result);
    assert!(text.contains("失败：12 项\r\n\r\nPID 1: e\r\n"));
    assert!(text.ends_with("PID 10: e"));
}

#[test]
fn batch_starts_each_root_as_allowed() {
    let guardian = guardian(None);
    let entries = [entry(1, Status::Owned), entry(2, Status::Candidate)];
    let processes = vec![process(1, 0), process(2, 0)];
    let allowed = guardian.terminate_batch(&entries, true, &Ok(processes.clone()));
    assert!(allowed.started.iter().all(|started| started.is_ok()));
    let refused = guardian.terminate_batch(&entries, false, &Ok(processes));
    assert_eq!(refused.started[0].as_ref().unwrap_err(), "进程仍处于活动宿主树中");
    assert!(refused.started[1].is_ok());
}

#[test]
fn batch_needs_a_yes() {
    assert_eq!(batch_step(0, None), BatchStep::Hint);
    assert_eq!(batch_step(0, Some(6)), BatchStep::Hint);
    assert_eq!(batch_step(2, None), BatchStep::Ask);
    assert_eq!(batch_step(2, Some(7)), BatchStep::Leave);
    assert_eq!(batch_step(2, Some(6)), BatchStep::End { allow_active: true });
}

#[test]
fn exit_is_confirmed_by_the_wait() {
    assert!(has_exited(true, 0));
    assert!(!has_exited(true, 258));
    assert!(!has_exited(false, 0));
    assert!(!has_exited(false, u32::MAX));
}

#[test]
fn children_end_before_their_parents() {
    let processes =
        [process(1, 0), process(2, 1), process(3, 1), process(4, 2), process(5, 4), process(6, 3)];
    let mut termination = start();
    termination.on_snapshot(&processes);
    let mut ended = Vec::new();
    while let Step::Open(pid) = termination.next() {
        for child in processes.iter().filter(|process| process.parent_pid == pid) {
            assert!(ended.contains(&child.pid));
        }
        termination.on_open_failed(false);
        ended.push(pid);
    }
    assert_eq!(ended.len(), 6);
    assert_eq!(ended.last(), Some(&1));
}
