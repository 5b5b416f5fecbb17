use codex_process_guardian::board::Board;
use codex_process_guardian::dialog::{confirmation_text, details_text};
use codex_process_guardian::listing::{matches_search, row_values, status_order, visible_entries};
use codex_process_guardian::selection::Selection;
use codex_process_guardian::terminal::{
    allows_active, choice, is_confirmed, list_text, outcome_text, pick, question_text, screen_text,
    Choice,
};
use codex_process_guardian::window::{
    columns, command, is_row_checked, is_table_event, layout, row_state, Command, Placement,
};
use codex_process_guardian::{
    find_entry, format_entry, idle_seconds, is_attention, process_age_seconds, Category, Entry,
    Status,
};

fn entry(pid: u32, status: Status) -> Entry {
    Entry {
        identity: format!("{pid}|1"),
        pid,
        parent_pid: 4,
        name: "Node.exe".into(),
        command_line: "node --inspect".into(),
        category: Category::ToolServer,
        learned_owned: true,
        first_seen: 0,
        last_seen: 0,
        last_activity: 900,
        cpu_ticks: 0,
        orphan_since: 0,
        status,
        started: (11_644_473_600 + 500) * 10_000_000,
        owner_pid: 7,
        owner_name: "codex.exe".into(),
        relation_path: "codex.exe (PID 7)".into(),
        child_count: 2,
    }
}

#[test]
fn entries_are_found_by_number_or_pid() {
    let entries = [entry(50, Status::Owned), entry(2, Status::Owned), entry(60, Status::Owned)];
    assert_eq!(find_entry(&entries, 0).unwrap().pid, 50);
    assert_eq!(find_entry(&entries, 1).unwrap().pid, 50);
    assert_eq!(find_entry(&entries, 2).unwrap().pid, 2);
    assert_eq!(find_entry(&entries, 60).unwrap().pid, 60);
    assert!(find_entry(&entries, 4).is_none());
    assert!(find_entry(&[], 0).is_none());
}

#[test]
fn ages_and_idle_times() {
    let mut entry = entry(1, Status::Owned);
    assert_eq!(process_age_seconds(&entry, 1000), 500);
    assert_eq!(process_age_seconds(&entry, 100), 0);
    assert_eq!(idle_seconds(&entry, 1000), 100);
    assert_eq!(idle_seconds(&entry, 100), 0);
    entry.started = 0;
    entry.last_activity = 0;
    assert_eq!(process_age_seconds(&entry, u64::MAX), 0);
    assert_eq!(idle_seconds(&entry, 1000), 0);
}

#[test]
fn lines_and_rows_of_an_entry() {
    let owned = entry(321, Status::Owned);
    assert_eq!(
        format_entry(0, &owned),
        format!("{:>3}. PID {:<7} {:<24} {:<18} {}", 1, 321, "Node.exe", "Owned", "ToolServer")
    );
    assert_eq!(
        row_values(&owned, 1000),
        [
            owned.status.risk_name(),
            owned.status.display_name(),
            "321",
            "Node.exe",
            "工具服务",
            "codex.exe (7)",
            "4",
            "2",
            "8分20秒",
            "1分40秒"
        ]
    );
    let mut lost = entry(1, Status::Candidate);
    lost.owner_pid = 0;
    assert_eq!(row_values(&lost, 1000)[5], "未确认");
}

#[test]
fn searches_look_through_all_that_is_shown() {
    let entry = entry(321, Status::Candidate);
    for word in ["", "321", "node.exe", "工具服务", "codex.exe", " 4 ", "(pid 7)", "--inspect"] {
        assert!(matches_search(&entry, word), "{word}");
    }
    assert!(!matches_search(&entry, "python"));
    assert!(!matches_search(&entry, "Node"));
}

#[test]
fn table_puts_the_urgent_first() {
    let mut entries = vec![
        entry(5, Status::Owned),
        entry(4, Status::GracePeriod),
        entry(3, Status::Candidate),
        entry(2, Status::Candidate),
        entry(1, Status::OwnedIdleTool),
        entry(9, Status::SuspectOnly),
    ];
    entries[3].name = "aNode.exe".into();
    assert_eq!(visible_entries(&entries, false, ""), [3, 2, 4, 1, 5, 0]);
    assert_eq!(visible_entries(&entries, true, ""), [3, 2, 4, 1, 5]);
    assert_eq!(visible_entries(&entries, true, "anode"), [3]);
    entries[2].owner_pid = 1;
    assert_eq!(visible_entries(&entries, true, "")[0], 2);
    let twins = [entry(1, Status::Owned), entry(1, Status::Owned)];
    assert_eq!(visible_entries(&twins, false, ""), [0, 1]);
    assert!(status_order(&Status::Candidate) < status_order(&Status::OwnedIdleBrowser));
    assert!(is_attention(&entries[1]) && !is_attention(&entries[0]));
}

#[test]
fn ticks_belong_to_identities() {
    let entries = [entry(1, Status::Candidate), entry(2, Status::Owned), entry(3, Status::GracePeriod)];
    let mut ticks = Selection::new();
    ticks.insert("1|1");
    ticks.insert("1|1");
    ticks.insert("gone|1");
    assert_eq!(ticks.len(), 2);
    ticks.retain(&entries);
    assert_eq!(ticks.len(), 1);
    ticks.sync(&entries, &[1, 0], &[true, false]);
    assert!(ticks.contains("2|1") && !ticks.contains("1|1"));
    assert_eq!(ticks.selected(&entries), [1]);
    assert_eq!(ticks.check_matching(&entries, &[2, 1, 0], true, false), [0, 2]);
    assert_eq!(ticks.len(), 3);
    ticks.remove("2|1");
    assert_eq!(ticks.selected(&entries), [0, 2]);
    ticks.clear();
    assert_eq!(ticks.len(), 0);
    let mut unowned = entry(8, Status::SuspectOnly);
    unowned.learned_owned = false;
    assert!(ticks.check_matching(&[unowned.clone()], &[0], true, false).is_empty());
    assert_eq!(ticks.check_matching(&[unowned], &[0], false, true), [0]);
}

#[test]
fn board_keeps_the_last_good_scan() {
    let mut board = Board::new();
    assert!(board.attention_only());
    board.refresh(Ok(vec![entry(1, Status::Candidate), entry(2, Status::Owned)]), &[], "");
    assert_eq!(board.visible(), [0]);
    assert_eq!(
        board.summary(true),
        "全部 2 项 ｜ 当前显示 1 项 ｜ 需关注 1 项（可处理 1）｜ 已勾选 0 项 ｜ 后台监控：运行中"
    );
    board.refresh(Err("denied".to_string()), &[true], "");
    assert_eq!(
        board.summary(false),
        "扫描失败：denied ｜ 表格显示上次成功快照（2 项）｜ 后台监控：未运行"
    );
    assert_eq!(board.selected(), [0]);
    board.rebuild(false, "NODE");
    assert_eq!(board.visible(), [0, 1]);
    let (cells, ticked) = board.table_row(0, 1000);
    assert_eq!((cells.len(), ticked), (10, true));
    assert!(!board.table_row(1, 1000).1);
    assert_eq!(board.check_matching(false, true), [0, 1]);
    board.refresh(Ok(vec![entry(2, Status::Owned)]), &[true, true], "nothing");
    assert!(board.visible().is_empty());
    assert_eq!(board.selected(), [0]);
    assert!(board.summary(true).starts_with("全部 1 项"));
    assert_eq!(board.entry(0).pid, 2);
    assert_eq!(board.details(0, 1000), None);
    board.rebuild(false, "");
    assert_eq!(board.details(-1, 1000), None);
    assert_eq!(board.details(0, 1000), Some(details_text(&entry(2, Status::Owned), 1000)));
    board.sync(&[false]);
    assert!(board.selected().is_empty());
    board.clear_checks();
    assert!(board.summary(true).contains("已勾选 0 项"));
}

#[test]
fn details_say_everything() {
    let owned = entry(321, Status::Owned);
    assert_eq!(
        details_text(&owned, 1000),
        format!(
            "进程：Node.exe    PID：321    父 PID：4    子进程：2\r\n状态：{}（风险：{}）    类型：工具服务    已确认归属：是\r\n归属宿主：codex.exe (PID 7)\r\n进程关系：codex.exe (PID 7)\r\n运行时长：8分20秒    闲置时长：1分40秒\r\n\r\n完整命令行：\r\nnode --inspect",
            owned.status.display_name(),
            owned.status.risk_name()
        )
    );
    let mut unknown = entry(1, Status::SuspectOnly);
    unknown.learned_owned = false;
    unknown.owner_pid = 0;
    unknown.relation_path = String::new();
    let text = details_text(&unknown, 1000);
    assert!(text.contains("已确认归属：否\r\n归属宿主：未确认\r\n进程关系：未知\r\n"));
}

#[test]
fn confirmation_names_eight() {
    let entries: Vec<Entry> = (1..=10).map(|pid| entry(pid, Status::Owned)).collect();
    let text = confirmation_text(&entries);
    assert!(text.starts_with("⚠️ 危险操作检测！\r\n操作类型：批量结束已勾选的进程树\r\n影响范围：勾选 10 项，关联子进程约 20 项；其中正常运行 10 项、归属未确认 0 项。\r\n"));
    let line = format!("PID 8  Node.exe  {}", Status::Owned.display_name());
    assert!(text.ends_with(&format!("{line}\r\n……另有 2 项\r\n\r\n请确认是否继续？")));
    let mut single = vec![entry(1, Status::Candidate)];
    single[0].learned_owned = false;
    let text = confirmation_text(&single);
    assert!(text.contains("正常运行 0 项、归属未确认 1 项"));
    assert!(!text.contains("另有"));
}

#[test]
fn controls_are_laid_out() {
    let places = layout(1380, 820);
    assert_eq!(places.len(), 15);
    assert_eq!(places[0], Placement { id: 108, x: 10, y: 8, width: 1360, height: 24 });
    assert_eq!(places[4], Placement { id: 102, x: 10, y: 72, width: 72, height: 30 });
    assert_eq!(places[11], Placement { id: 105, x: 696, y: 72, width: 142, height: 30 });
    assert_eq!(places[12], Placement { id: 114, x: 850, y: 77, width: 520, height: 22 });
    assert_eq!(places[13], Placement { id: 100, x: 10, y: 110, width: 1360, height: 480 });
    assert_eq!(places[14], Placement { id: 101, x: 10, y: 598, width: 1360, height: 210 });
    assert_eq!(layout(-5, 0), layout(920, 600));
    assert_eq!(layout(0, 0)[12].width, 120);
    assert_eq!(layout(0, 0)[14].height, 200);
    assert_eq!(layout(i32::MAX, i32::MAX)[13].width, i32::MAX - 20);
}

#[test]
fn columns_match_the_cells() {
    let columns = columns();
    assert_eq!(columns.len(), row_values(&entry(1, Status::Owned), 1000).len());
    let right: Vec<&str> =
        columns.iter().filter(|column| column.right_aligned).map(|column| column.title).collect();
    assert_eq!(right, ["PID", "父 PID", "子进程"]);
    assert_eq!(columns[5].width, 170);
}

#[test]
fn commands_are_told_by_their_sender() {
    let expected = [
        (102, Command::Refresh),
        (103, Command::StartWatch),
        (104, Command::StopWatch),
        (105, Command::Terminate),
        (106, Command::OpenLog),
        (107, Command::Filter),
        (111, Command::CheckAttention),
        (112, Command::CheckVisible),
        (113, Command::ClearChecks),
        (109, Command::Nothing),
        (0x300_0000 + 109, Command::Search),
        (0x300_0000 + 102, Command::Refresh),
        (0x100_0000 + 109, Command::Nothing),
        (1, Command::Nothing),
    ];
    for (parameter, wanted) in expected {
        assert_eq!(command(parameter), wanted, "{parameter}");
    }
}

#[test]
fn table_events_count_while_it_rests() {
    assert!(is_table_event(100, 0xffff_ff9b, false));
    assert!(is_table_event(100, 0xffff_fffe, false));
    assert!(!is_table_event(100, 0xffff_fffe, true));
    assert!(!is_table_event(101, 0xffff_fffe, false));
    assert!(!is_table_event(100, 0, false));
    assert!(is_row_checked(row_state(true)) && !is_row_checked(row_state(false)));
    assert!(is_row_checked(0x2003) && !is_row_checked(0x3000));
}

#[test]
fn choices_at_the_terminal() {
    assert_eq!(choice(" Q \r\n"), Choice::Quit);
    assert_eq!(choice("r\n"), Choice::Refresh);
    assert_eq!(choice("L"), Choice::OpenLog);
    assert_eq!(choice("42\n"), Choice::End(42));
    assert_eq!(choice("+7"), Choice::End(7));
    assert_eq!(choice("4294967296"), Choice::Nothing);
    assert_eq!(choice(""), Choice::Nothing);
    assert_eq!(choice("quit"), Choice::Nothing);
}

#[test]
fn picked_entries_are_owned() {
    let mut unowned = entry(9, Status::SuspectOnly);
    unowned.learned_owned = false;
    let entries = [entry(5, Status::Owned), unowned];
    assert_eq!(pick(&entries, 5).unwrap().pid, 5);
    assert!(allows_active(pick(&entries, 1).unwrap()));
    assert_eq!(
        pick(&entries, 9).unwrap_err(),
        "该进程未确认由 ChatGPT/Codex 启动，拒绝结束。"
    );
    assert_eq!(pick(&entries, 77).unwrap_err(), "未找到对应进程。");
    assert!(!allows_active(&entry(5, Status::Candidate)));
}

#[test]
fn only_three_words_agree() {
    for word in ["是", " 确认\r\n", "继续\n"] {
        assert!(is_confirmed(word));
    }
    for word in ["", "y", "yes", "是的"] {
        assert!(!is_confirmed(word));
    }
}

#[test]
fn terminal_texts() {
    assert_eq!(
        question_text(&entry(5, Status::Owned)),
        "\n⚠️ 危险操作检测！\n操作类型：结束 PID 5 Node.exe\n影响范围：该进程及全部子进程；状态 Owned\n风险评估：可能中断正在执行的浏览器或工具调用。\n请输入“是”、“确认”或“继续”："
    );
    assert_eq!(outcome_text(&Ok(3)), "已结束进程树，共 3 个进程。");
    assert_eq!(outcome_text(&Err("x".to_string())), "结束失败：x");
    let entries = [entry(5, Status::Owned), entry(6, Status::Candidate)];
    let expected = format!("{}\n{}\n", format_entry(0, &entries[0]), format_entry(1, &entries[1]));
    assert_eq!(list_text(&entries), expected);
    assert!(screen_text(&entries).contains(&expected));
    assert_eq!(
        screen_text(&[]),
        "Codex Process Guardian - Rust 终端管理器\n\n当前没有可显示的 ChatGPT/Codex 工具进程。\n\n输入序号或 PID 结束进程；R 刷新；L 打开日志；Q 退出。\n请选择："
    );
}
