use std::path::PathBuf;

use codex_process_guardian::scan::standing;
use codex_process_guardian::state::{read_state, write_state};
use codex_process_guardian::watch::{round_error, stops, timeout_ms, Watch};
use codex_process_guardian::{Category, Config, Entry, Guardian, Paths, ProcessInfo, Status};

const PLACE: &str = r"c:\apps\openai\codex\codex.exe app-server";

fn guardian(file: Option<&str>) -> Guardian {
    let paths = Paths {
        data_dir: PathBuf::from("d"),
        state: PathBuf::from("s"),
        log: PathBuf::from("l"),
        config: PathBuf::from("c"),
    };
    Guardian::new(paths, file)
}

fn process(pid: u32, parent_pid: u32, name: &str, command_line: &str, cpu_ticks: u64) -> ProcessInfo {
    ProcessInfo {
        pid,
        parent_pid,
        name: name.into(),
        command_line: command_line.into(),
        started: pid as u64,
        cpu_ticks,
    }
}

fn host() -> ProcessInfo {
    process(10, 0, "codex.exe", PLACE, 0)
}

fn tool(cpu_ticks: u64) -> ProcessInfo {
    process(20, 10, "node.exe", "node playwright-mcp", cpu_ticks)
}

fn again(entries: &[Entry]) -> Vec<Entry> {
    read_state(Some(&write_state(entries)))
}

#[test]
fn helper_below_a_host_is_owned() {
    let found = guardian(None).scan(1000, &[host(), tool(5)], &[]);
    assert_eq!(found.entries.len(), 1);
    let entry = &found.entries[0];
    assert_eq!(entry.identity, "20|20");
    assert_eq!(entry.status, Status::Owned);
    assert_eq!(entry.category, Category::ToolServer);
    assert!(entry.learned_owned);
    assert_eq!((entry.first_seen, entry.last_seen, entry.last_activity), (1000, 1000, 1000));
    assert_eq!((entry.owner_pid, entry.owner_name.as_str()), (10, "codex.exe"));
    assert_eq!(entry.relation_path, "codex.exe (PID 10)  →  node.exe (PID 20)");
    assert_eq!((entry.cpu_ticks, entry.child_count, entry.orphan_since), (5, 0, 0));
    assert_eq!(found.events, ["status pid=20 name=node.exe status=Owned category=ToolServer"]);
}

#[test]
fn helper_without_a_host_is_only_suspected() {
    let found = guardian(None).scan(1000, &[tool(5)], &[]);
    assert_eq!(found.entries[0].status, Status::SuspectOnly);
    assert!(!found.entries[0].learned_owned);
    assert_eq!(found.entries[0].owner_pid, 0);
}

#[test]
fn hosts_and_strangers_are_not_listed() {
    let found = guardian(None).scan(1, &[host(), process(30, 10, "notepad.exe", "", 0)], &[]);
    assert!(found.entries.is_empty() && found.events.is_empty());
}

#[test]
fn lost_helper_has_a_grace_period() {
    let guardian = guardian(None);
    let first = guardian.scan(1000, &[host(), tool(5)], &[]);
    let second = guardian.scan(1030, &[tool(5)], &again(&first.entries));
    assert_eq!(second.entries[0].status, Status::GracePeriod);
    assert_eq!(second.entries[0].orphan_since, 1030);
    assert_eq!(second.events.len(), 1);
    let third = guardian.scan(1030 + 299, &[tool(5)], &again(&second.entries));
    assert_eq!(third.entries[0].status, Status::GracePeriod);
    assert!(third.events.is_empty());
    let fourth = guardian.scan(1030 + 300, &[tool(5)], &again(&third.entries));
    assert_eq!(fourth.entries[0].status, Status::Candidate);
    assert!(fourth.entries[0].learned_owned);
    assert_eq!(fourth.entries[0].first_seen, 1000);
    let back = guardian.scan(2000, &[host(), tool(5)], &again(&fourth.entries));
    assert_eq!(back.entries[0].orphan_since, 0);
}

#[test]
fn reused_pid_is_a_new_process() {
    let guardian = guardian(None);
    let first = guardian.scan(1000, &[host(), tool(5)], &[]);
    let mut other = tool(5);
    other.started = 99;
    let second = guardian.scan(2000, &[other], &first.entries);
    assert_eq!(second.entries[0].status, Status::SuspectOnly);
    assert_eq!(second.entries[0].first_seen, 2000);
}

#[test]
fn idle_tool_is_told_by_its_cpu_time() {
    let guardian = guardian(Some("owned_tool_idle_minutes=1"));
    let first = guardian.scan(1000, &[host(), tool(0)], &[]);
    let idle = guardian.scan(1060, &[host(), tool(999_999)], &first.entries);
    assert_eq!(idle.entries[0].status, Status::OwnedIdleTool);
    assert_eq!(idle.entries[0].last_activity, 1000);
    let busy = guardian.scan(1060, &[host(), tool(1_000_000)], &first.entries);
    assert_eq!(busy.entries[0].status, Status::Owned);
    assert_eq!(busy.entries[0].last_activity, 1060);
}

#[test]
fn standing_of_a_browser_and_a_direct_helper() {
    let config = Config::default();
    let browser = standing(&config, 100, Category::Browser, true, 0, None);
    assert_eq!(browser.status, Status::Owned);
    let found = guardian(None).scan(1000, &[host(), tool(5)], &[]);
    let mut old = found.entries[0].clone();
    old.last_activity = 1;
    let idle = standing(&config, 1 + 20 * 60, Category::Browser, true, 5, Some(&old));
    assert_eq!(idle.status, Status::OwnedIdleBrowser);
    let direct = standing(&config, u64::MAX, Category::Direct, true, u64::MAX, Some(&old));
    assert_eq!((direct.status, direct.last_activity), (Status::Owned, 1));
}

#[test]
fn state_reads_back_without_command_lines() {
    let found = guardian(None).scan(1000, &[host(), tool(5)], &[]);
    let mut entry = found.entries[0].clone();
    entry.name = "odd\tname".into();
    entry.child_count = 3;
    let text = write_state(&[entry.clone()]);
    assert_eq!(
        text,
        "v4\n20|20\t20\t10\todd name\tToolServer\t1\t1000\t1000\t1000\t5\t0\tOwned\t\t20\t10\tcodex.exe\tcodex.exe (PID 10)  →  node.exe (PID 20)\t3\n"
    );
    let back = read_state(Some(&text));
    assert_eq!(back.len(), 1);
    assert_eq!(back[0].name, "odd name");
    assert_eq!(back[0].command_line, "");
    assert_eq!(back[0].child_count, 3);
    assert_eq!(write_state(&back), text);
    entry.command_line = "another".into();
    assert_eq!(write_state(&[entry]), text);
}

#[test]
fn broken_state_lines_are_passed_over() {
    assert!(read_state(None).is_empty());
    assert!(read_state(Some("")).is_empty());
    assert!(read_state(Some("v4\n")).is_empty());
    let good = "1|2\t1\t0\tn\tBrowser\t0\t1\t2\t3\t4\t5\tCandidate\tcmd";
    let text = format!("v4\nshort\tline\n{good}\n{}\n{}\n", good.replace("Browser", "Car"), good.replace("\t4\t", "\t-4\t"));
    let entries = read_state(Some(&text));
    assert_eq!(entries.len(), 1);
    assert_eq!(entries[0].status, Status::Candidate);
    assert_eq!(entries[0].command_line, "cmd");
    assert_eq!((entries[0].started, entries[0].owner_pid, entries[0].child_count), (0, 0, 0));
    assert_eq!(entries[0].relation_path, "");
}

#[test]
fn config_lines_are_read_as_written() {
    let config = Config::load(Some(
        "# comment\n\n interval_seconds = 4 \ngrace_minutes=0\nowned_browser_idle_minutes=x\nowned_tool_idle_minutes=+12\nACTION=terminate\naction=TERMINATE\nterminate_owned_idle_browser=Yes\nterminate_owned_idle_tool=2\nno equals sign\n",
    ));
    assert_eq!(config.interval_seconds, 5);
    assert_eq!(config.grace_minutes, 1);
    assert_eq!(config.owned_browser_idle_minutes, 20);
    assert_eq!(config.owned_tool_idle_minutes, 12);
    assert!(config.action_terminate && config.terminate_owned_idle_browser);
    assert!(!config.terminate_owned_idle_tool);
    let silent = Config::load(Some("#action=terminate\n"));
    assert!(!silent.action_terminate);
    assert_eq!(Config::load(None).interval_seconds, 30);
}

#[test]
fn watch_logs_changes_only() {
    let mut watch = Watch::new();
    assert_eq!(watch.observe(String::new()), None);
    let error = round_error(&Err("denied".to_string()));
    assert_eq!(error, "scan_failed error=denied");
    assert_eq!(watch.observe(error.clone()), Some("watch_error scan_failed error=denied".into()));
    assert_eq!(watch.observe(error), None);
    let both = round_error(&Ok(vec!["pid=1 error=a".to_string(), "pid=2 error=b".to_string()]));
    assert_eq!(both, "pid=1 error=a | pid=2 error=b");
    assert_eq!(watch.observe(both.clone()), Some(format!("watch_error {both}")));
    assert_eq!(watch.observe(round_error(&Ok(Vec::new()))), Some("watch_recovered".into()));
    assert_eq!(watch.observe(String::new()), None);
}

#[test]
fn watch_waits_for_the_interval() {
    let mut config = Config::default();
    assert_eq!(timeout_ms(&config), 30_000);
    config.interval_seconds = u64::MAX;
    assert_eq!(timeout_ms(&config), u32::MAX - 1);
    assert!(stops(0) && stops(u32::MAX));
    assert!(!stops(258));
}

#[test]
fn second_scan_remembers_the_first() {
    let guardian = guardian(None);
    let first = guardian.scan(1000, &[host(), tool(5)], &[]);
    let mut other = tool(5);
    other.pid = 30;
    let second = guardian.scan(5000, &[tool(5), other], &again(&first.entries));
    let (old, new) = (&second.entries[0], &second.entries[1]);
    assert_eq!((old.first_seen, old.learned_owned, old.owner_pid), (1000, true, 0));
    assert_eq!((new.first_seen, new.last_activity), (5000, 5000));
    assert!(!new.learned_owned);
    let owned = guardian.scan(6000, &[host(), tool(5)], &[]);
    assert!(owned.entries[0].learned_owned && owned.entries[0].owner_pid == 10);
}
