use std::collections::HashMap;
use std::path::PathBuf;

use codex_process_guardian::classify::{classify, is_host, is_relevant_process_name, lower};
use codex_process_guardian::state::write_state;
use codex_process_guardian::tree::{ancestors, build_children, descendant_ids, relation_path};
use codex_process_guardian::wide::decode_utf16_bytes;
use codex_process_guardian::{
    format_duration, Category, Config, Entry, Guardian, Paths, ProcessInfo, Status,
};

fn guardian() -> Guardian {
    let paths = Paths {
        data_dir: PathBuf::from("data"),
        state: PathBuf::from("data/state-rust.tsv"),
        log: PathBuf::from("data/events-rust.log"),
        config: PathBuf::from("guardian.conf"),
    };
    Guardian::new(paths, None)
}

fn named(name: &str, command_line: &str) -> ProcessInfo {
    ProcessInfo {
        pid: 1,
        parent_pid: 0,
        name: name.into(),
        command_line: command_line.into(),
        started: 1,
        cpu_ticks: 0,
    }
}

fn fake_entry() -> Entry {
    Entry {
        identity: "999999|1".into(),
        pid: 999999,
        parent_pid: 0,
        name: "node.exe".into(),
        command_line: String::new(),
        category: Category::ToolServer,
        learned_owned: false,
        first_seen: 0,
        last_seen: 0,
        last_activity: 0,
        cpu_ticks: 0,
        orphan_since: 0,
        status: Status::SuspectOnly,
        started: 1,
        owner_pid: 0,
        owner_name: String::new(),
        relation_path: String::new(),
        child_count: 0,
    }
}

#[test]
fn config_defaults_are_safe() {
    let config = Config::default();
    assert!(!config.action_terminate);
    assert!(!config.terminate_owned_idle_browser);
}

#[test]
fn descendant_walk_returns_tree() {
    let make = |pid, parent_pid| ProcessInfo {
        pid,
        parent_pid,
        name: String::new(),
        command_line: String::new(),
        started: 1,
        cpu_ticks: 0,
    };
    let processes = [make(1, 0), make(2, 1), make(3, 2), make(4, 1)];
    let children = build_children(&processes);
    let ids = descendant_ids(1, &children);
    assert_eq!(ids, vec![2, 4, 3]);
}

#[test]
fn browser_classification_requires_marker() {
    let process = ProcessInfo {
        pid: 1,
        parent_pid: 0,
        name: "chrome.exe".into(),
        command_line: "chrome.exe --remote-debugging-pipe".into(),
        started: 1,
        cpu_ticks: 0,
    };
    assert_eq!(classify(&process), Some(Category::Browser));
}

#[test]
fn cua_runtime_is_classified_as_tool_server() {
    let process = ProcessInfo {
        pid: 1,
        parent_pid: 0,
        name: "node.exe".into(),
        command_line: r#"C:\Users\x\AppData\Local\OpenAI\Codex\runtimes\cua_node\bin\node.exe kernel.js --session-id abc"#.into(),
        started: 1,
        cpu_ticks: 0,
    };
    assert_eq!(classify(&process), Some(Category::ToolServer));
}

#[test]
fn terminate_rejects_unlearned_process_before_os_access() {
    let guardian = guardian();
    let error = guardian.terminate(&fake_entry(), false).unwrap_err();
    assert!(error.contains("未确认归属"));
}

#[test]
fn terminate_requires_explicit_active_permission() {
    let guardian = guardian();
    let mut entry = fake_entry();
    entry.learned_owned = true;
    entry.status = Status::Owned;
    let error = guardian.terminate(&entry, false).unwrap_err();
    assert!(error.contains("活动宿主树"));
}

#[test]
fn duration_is_compact_and_readable() {
    assert_eq!(format_duration(0), "未知");
    assert_eq!(format_duration(59), "59秒");
    assert_eq!(format_duration(61), "1分1秒");
    assert_eq!(format_duration(3_661), "1小时1分");
    assert_eq!(format_duration(90_000), "1天1小时");
}

#[test]
fn relation_path_runs_from_owner_to_current_process() {
    let make = |pid, parent_pid, name: &str| ProcessInfo {
        pid,
        parent_pid,
        name: name.into(),
        command_line: String::new(),
        started: pid as u64,
        cpu_ticks: 0,
    };
    let processes = [
        make(10, 0, "Codex.exe"),
        make(20, 10, "launcher.exe"),
        make(30, 20, "node.exe"),
    ];
    let by_id: HashMap<u32, &ProcessInfo> =
        processes.iter().map(|process| (process.pid, process)).collect();
    let ancestor_ids = ancestors(&processes[2], &by_id);

    assert_eq!(
        relation_path(&processes[2], &ancestor_ids, &by_id, Some(10)),
        "Codex.exe (PID 10)  →  launcher.exe (PID 20)  →  node.exe (PID 30)"
    );
}

#[test]
fn config_values_are_capped_to_safe_ranges() {
    let config = Config::load(Some(
        "interval_seconds=18446744073709551615\ngrace_minutes=18446744073709551615\nowned_browser_idle_minutes=18446744073709551615\nowned_tool_idle_minutes=18446744073709551615\n",
    ));

    assert!(config.interval_seconds <= 86_400);
    assert!(config.grace_minutes <= 43_200);
    assert!(config.owned_browser_idle_minutes <= 43_200);
    assert!(config.owned_tool_idle_minutes <= 43_200);
}

#[test]
fn persisted_state_does_not_store_command_line() {
    let mut entry = fake_entry();
    entry.command_line = "node.exe --secret-value should-not-persist".into();
    let text = write_state(&[entry]);

    assert!(!text.contains("secret-value"));
}

#[test]
fn utf16_decoder_accepts_unaligned_byte_slices() {
    let words: Vec<u16> = "进程安全".encode_utf16().collect();
    let mut bytes = vec![0x7f];
    bytes.extend(words.iter().flat_map(|word| word.to_ne_bytes()));

    assert_eq!(decode_utf16_bytes(&bytes[1..]), "进程安全");
}

#[test]
fn names_of_categories_and_statuses() {
    assert_eq!(Category::Direct.as_str(), "Direct");
    assert_eq!(Category::Browser.display_name(), "浏览器自动化");
    assert_eq!(Category::ToolServer.display_name(), "工具服务");
    assert_eq!(Category::Direct.display_name(), "Codex 核心");
    for status in [
        Status::Owned,
        Status::OwnedIdleBrowser,
        Status::OwnedIdleTool,
        Status::GracePeriod,
        Status::Candidate,
        Status::SuspectOnly,
    ] {
        let key: Vec<char> = status.as_str().chars().collect();
        assert_eq!(Status::parse(&key), Some(status));
        assert_eq!(format!("{status:?}"), status.as_str());
        assert!(!status.display_name().is_empty());
        assert!(!status.risk_name().is_empty());
    }
    for category in [Category::Direct, Category::Browser, Category::ToolServer] {
        let key: Vec<char> = category.as_str().chars().collect();
        assert_eq!(Category::parse(&key), Some(category));
    }
    assert_eq!(Status::parse(&['x']), None);
    assert_eq!(Category::parse(&[]), None);
}

#[test]
fn hosts_need_name_and_command_line() {
    assert!(is_host(&named("Codex.exe", "codex.exe app-server")));
    assert!(!is_host(&named("codex.exe", "codex.exe")));
    let place = r"C:\Program Files\WindowsApps\OpenAI.ChatGPT_1.0\ChatGPT.exe";
    assert!(is_host(&named("ChatGPT.exe", place)));
    assert!(!is_host(&named("ChatGPT.exe", &format!("{place} --type=renderer"))));
    assert!(!is_host(&named("ChatGPT.exe", "")));
    assert!(!is_host(&named("notepad.exe", "app-server")));
}

#[test]
fn letter_case_does_not_matter() {
    let one = named("CHROME.EXE", "CHROME.EXE --REMOTE-DEBUGGING-PIPE");
    let two = named("chrome.exe", "chrome.exe --remote-debugging-pipe");
    assert_eq!(classify(&one), classify(&two));
    assert_eq!(lower(&one), ("chrome.exe".to_string(), two.command_line.clone()));
}

#[test]
fn a_name_alone_is_no_evidence() {
    assert_eq!(classify(&named("chrome.exe", "chrome.exe")), None);
    assert_eq!(classify(&named("node.exe", "")), None);
    assert!(is_relevant_process_name("Chrome.exe"));
    assert!(!is_relevant_process_name("notepad.exe"));
}

#[test]
fn log_lines_carry_the_time() {
    assert_eq!(guardian().log(1700000000, "terminated pid=1"), "1700000000 terminated pid=1\n");
}

#[test]
fn guardian_is_configured_by_its_file() {
    let paths = Paths {
        data_dir: PathBuf::from("d"),
        state: PathBuf::from("s"),
        log: PathBuf::from("l"),
        config: PathBuf::from("c"),
    };
    let guardian = Guardian::new(paths, Some("grace_minutes = 7\r\naction=terminate\n"));
    assert_eq!(guardian.config.grace_minutes, 7);
    assert_eq!(guardian.config.interval_seconds, Config::default().interval_seconds);
    assert_eq!(guardian.paths.log, PathBuf::from("l"));
}
