//! What the window tells the user: the details of an entry, the status line, and the texts of
//! the dialogs.
use vstd::prelude::*;

use crate::decimal::{self, append_decimal};
use crate::listing::{self, format_duration, idle_seconds, is_attention, process_age_seconds};
use crate::model::{self, BatchTerminationResult, Entry, EntryModel, Status};
use crate::text::{self, join};

verus! {

/// How many entries a confirmation names.
pub const PREVIEW_LINES: usize = 8;

/// How many failures a result names.
pub const FAILURE_LINES: usize = 10;

/// The answer of a dialog in which the user agrees.
pub const IDYES: i32 = 6;

/// What is next for the batch that the user asks for.
#[derive(Clone, Copy, Debug, PartialEq, Eq, Structural)]
pub enum BatchStep {
    /// Tell the user to tick something first.
    Hint,
    /// Ask the user to confirm.
    Ask,
    /// End what is selected, with this permission for active processes.
    End { allow_active: bool },
    /// Leave everything as it is.
    Leave,
}

// ---------------------------------------------------------------------------------------------
// Models
// ---------------------------------------------------------------------------------------------
/// The owner of an entry as the details show it.
pub open spec fn owner_detail(entry: EntryModel) -> Seq<char> {
    if entry.owner_pid == 0 {
        "未确认"@
    } else {
        entry.owner_name + " (PID "@ + decimal::decimal(entry.owner_pid as nat) + ")"@
    }
}

/// The details of an entry.
pub open spec fn details(entry: EntryModel, now: u64) -> Seq<char> {
    "进程："@ + entry.name + "    PID："@ + decimal::decimal(entry.pid as nat) + "    父 PID："@
        + decimal::decimal(entry.parent_pid as nat) + "    子进程："@ + decimal::decimal(
        entry.child_count as nat,
    ) + "\r\n状态："@ + model::status_title(entry.status) + "（风险："@ + model::status_risk(
        entry.status,
    ) + "）    类型："@ + model::category_title(entry.category) + "    已确认归属："@ + (
    if entry.learned_owned {
        "是"@
    } else {
        "否"@
    }) + "\r\n归属宿主："@ + owner_detail(entry) + "\r\n进程关系："@ + (
    if entry.relation_path.len() == 0 {
        "未知"@
    } else {
        entry.relation_path
    }) + "\r\n运行时长："@ + listing::duration_text(listing::age(entry.started, now) as u64)
        + "    闲置时长："@ + listing::duration_text(listing::idle(entry.last_activity, now))
        + "\r\n\r\n完整命令行：\r\n"@ + entry.command_line
}

/// Whether the watch runs, in words.
pub open spec fn watch_word(running: bool) -> Seq<char> {
    if running {
        "运行中"@
    } else {
        "未运行"@
    }
}

/// The entry wants attention and may be ended.
pub open spec fn is_actionable(entry: EntryModel) -> bool {
    entry.learned_owned && listing::wants_attention(entry)
}

/// The entries that want attention.
pub open spec fn attention(entries: Seq<EntryModel>) -> Seq<EntryModel> {
    entries.filter(|entry: EntryModel| listing::wants_attention(entry))
}

/// The entries that want attention and may be ended.
pub open spec fn actionable(entries: Seq<EntryModel>) -> Seq<EntryModel> {
    entries.filter(|entry: EntryModel| is_actionable(entry))
}

/// The status line after a scan that succeeded.
pub open spec fn summary(
    entries: Seq<EntryModel>,
    visible: nat,
    checked: nat,
    running: bool,
) -> Seq<char> {
    "全部 "@ + decimal::decimal(entries.len()) + " 项 ｜ 当前显示 "@ + decimal::decimal(visible)
        + " 项 ｜ 需关注 "@ + decimal::decimal(attention(entries).len()) + " 项（可处理 "@
        + decimal::decimal(actionable(entries).len()) + "）｜ 已勾选 "@ + decimal::decimal(checked)
        + " 项 ｜ 后台监控："@ + watch_word(running)
}

/// The status line after a scan that failed: the table still shows the last one that succeeded.
pub open spec fn failed_summary(error: Seq<char>, total: nat, running: bool) -> Seq<char> {
    "扫描失败："@ + error + " ｜ 表格显示上次成功快照（"@ + decimal::decimal(total)
        + " 项）｜ 后台监控："@ + watch_word(running)
}

/// The entries for which no owner was ever seen.
pub open spec fn unowned(entries: Seq<EntryModel>) -> Seq<EntryModel> {
    entries.filter(|entry: EntryModel| !entry.learned_owned)
}

/// The entries that run normally.
pub open spec fn active(entries: Seq<EntryModel>) -> Seq<EntryModel> {
    entries.filter(|entry: EntryModel| entry.status == Status::Owned)
}

/// The processes below the entries, all together.
pub open spec fn child_total(entries: Seq<EntryModel>) -> nat
    decreases entries.len(),
{
    if entries.len() == 0 {
        0
    } else {
        child_total(entries.drop_last()) + entries.last().child_count as nat
    }
}

/// An entry as a confirmation names it.
pub open spec fn preview_line(entry: EntryModel) -> Seq<char> {
    "PID "@ + decimal::decimal(entry.pid as nat) + "  "@ + entry.name + "  "@
        + model::status_title(entry.status)
}

/// The first `count` entries as a confirmation names them.
pub open spec fn preview_lines(entries: Seq<EntryModel>, count: nat) -> Seq<Seq<char>> {
    Seq::new(count, |i: int| preview_line(entries[i]))
}

/// The lesser of two numbers.
pub open spec fn lesser(a: nat, b: nat) -> nat {
    if a <= b {
        a
    } else {
        b
    }
}

/// What a confirmation says of the entries that it does not name.
pub open spec fn remaining_text(total: nat) -> Seq<char> {
    if total > PREVIEW_LINES {
        "\r\n……另有 "@ + decimal::decimal((total - PREVIEW_LINES) as nat) + " 项"@
    } else {
        Seq::empty()
    }
}

/// The question before checked processes are ended.
pub open spec fn confirmation(entries: Seq<EntryModel>) -> Seq<char> {
    "⚠️ 危险操作检测！\r\n操作类型：批量结束已勾选的进程树\r\n影响范围：勾选 "@
        + decimal::decimal(entries.len()) + " 项，关联子进程约 "@ + decimal::decimal(
        child_total(entries),
    ) + " 项；其中正常运行 "@ + decimal::decimal(active(entries).len()) + " 项、归属未确认 "@
        + decimal::decimal(unowned(entries).len())
        + " 项。\r\n风险评估：可能中断正在执行的浏览器或工具调用；归属未确认项会被安全拒绝；父子重复选择会自动去重。\r\n\r\n"@
        + text::joined(
        preview_lines(entries, lesser(entries.len(), PREVIEW_LINES as nat)),
        "\r\n"@,
    ) + remaining_text(entries.len()) + "\r\n\r\n请确认是否继续？"@
}

/// What is next for a batch, by the number of selected entries and the user's answer, if there is
/// one. What the user agrees to may be active.
pub open spec fn step_of(selected: nat, answer: Option<i32>) -> BatchStep {
    if selected == 0 {
        BatchStep::Hint
    } else {
        match answer {
            None => BatchStep::Ask,
            Some(answer) => if answer == IDYES {
                BatchStep::End { allow_active: true }
            } else {
                BatchStep::Leave
            },
        }
    }
}

/// A failure as the result names it.
pub open spec fn failure_line(failure: (u32, String)) -> Seq<char> {
    "PID "@ + decimal::decimal(failure.0 as nat) + ": "@ + failure.1@
}

/// The first `count` failures as the result names them.
pub open spec fn failure_lines(failures: Seq<(u32, String)>, count: nat) -> Seq<Seq<char>> {
    Seq::new(count, |i: int| failure_line(failures[i]))
}

/// What a result says of its failures.
pub open spec fn failures_text(failures: Seq<(u32, String)>) -> Seq<char> {
    if failures.len() == 0 {
        Seq::empty()
    } else {
        "\r\n\r\n"@ + text::joined(
            failure_lines(failures, lesser(failures.len(), FAILURE_LINES as nat)),
            "\r\n"@,
        )
    }
}

/// The account of what was ended.
pub open spec fn batch_account(result: BatchTerminationResult) -> Seq<char> {
    "批量操作完成。\r\n请求："@ + decimal::decimal(result.requested as nat)
        + " 项\r\n实际根进程："@ + decimal::decimal(result.processed_roots as nat)
        + " 项\r\n因父子重叠跳过："@ + decimal::decimal(result.skipped_overlaps as nat)
        + " 项\r\n已结束进程："@ + decimal::decimal(result.terminated_processes as nat)
        + " 个\r\n失败："@ + decimal::decimal(result.failures@.len()) + " 项"@ + failures_text(
        result.failures@,
    )
}

// ---------------------------------------------------------------------------------------------
// Functions
// ---------------------------------------------------------------------------------------------
/// The details of an entry.
pub fn details_text(entry: &Entry, now: u64) -> (result: String)
    requires
        entry.started != 0 ==> listing::clock_fits(now),
    ensures
        result@ == details(entry@, now),
{
    let mut result = "进程：".to_owned();
    result.append(entry.name.as_str());
    result.append("    PID：");
    append_decimal(&mut result, entry.pid as u64);
    result.append("    父 PID：");
    append_decimal(&mut result, entry.parent_pid as u64);
    result.append("    子进程：");
    append_decimal(&mut result, entry.child_count as u64);
    result.append("\r\n状态：");
    result.append(entry.status.display_name());
    result.append("（风险：");
    result.append(entry.status.risk_name());
    result.append("）    类型：");
    result.append(entry.category.display_name());
    result.append("    已确认归属：");
    if entry.learned_owned {
        result.append("是");
    } else {
        result.append("否");
    }
    result.append("\r\n归属宿主：");
    let mut owner = "未确认".to_owned();
    if entry.owner_pid != 0 {
        owner = entry.owner_name.clone();
        owner.append(" (PID ");
        append_decimal(&mut owner, entry.owner_pid as u64);
        owner.append(")");
    }
    result.append(owner.as_str());
    result.append("\r\n进程关系：");
    if entry.relation_path.as_str().is_empty() {
        result.append("未知");
    } else {
        result.append(entry.relation_path.as_str());
    }
    result.append("\r\n运行时长：");
    result.append(format_duration(process_age_seconds(entry, now)).as_str());
    result.append("    闲置时长：");
    result.append(format_duration(idle_seconds(entry, now)).as_str());
    result.append("\r\n\r\n完整命令行：\r\n");
    result.append(entry.command_line.as_str());
    result
}

/// Whether the watch runs, in words.
fn watch_text(running: bool) -> (result: &'static str)
    ensures
        result@ == watch_word(running),
{
    if running {
        "运行中"
    } else {
        "未运行"
    }
}

/// The status line: counts after a scan that succeeded, or else the error.
pub fn summary_text(
    entries: &[Entry],
    visible: usize,
    checked: usize,
    error: Option<&str>,
    running: bool,
) -> (result: String)
    ensures
        result@ == match error {
            Some(error) => failed_summary(error@, entries@.len(), running),
            None => summary(
                model::entry_models(entries@),
                visible as nat,
                checked as nat,
                running,
            ),
        },
{
    if let Some(error) = error {
        let mut result = "扫描失败：".to_owned();
        result.append(error);
        result.append(" ｜ 表格显示上次成功快照（");
        append_decimal(&mut result, entries.len() as u64);
        result.append(" 项）｜ 后台监控：");
        result.append(watch_text(running));
        return result;
    }
    let ghost models = model::entry_models(entries@);
    let mut attention_count: usize = 0;
    let mut actionable_count: usize = 0;
    for i in 0..entries.len()
        invariant
            models == model::entry_models(entries@),
            attention_count <= i,
            actionable_count <= i,
            attention_count == attention(models.take(i as int)).len(),
            actionable_count == actionable(models.take(i as int)).len(),
    {
        proof {
            lemma_filter_takes_one_more(
                models,
                |entry: EntryModel| listing::wants_attention(entry),
                i as int,
            );
            lemma_filter_takes_one_more(models, |entry: EntryModel| is_actionable(entry), i as int);
        }
        if is_attention(&entries[i]) {
            attention_count += 1;
            if entries[i].learned_owned {
                actionable_count += 1;
            }
        }
    }
    assert(models.take(entries@.len() as int) =~= models);
    let mut result = "全部 ".to_owned();
    append_decimal(&mut result, entries.len() as u64);
    result.append(" 项 ｜ 当前显示 ");
    append_decimal(&mut result, visible as u64);
    result.append(" 项 ｜ 需关注 ");
    append_decimal(&mut result, attention_count as u64);
    result.append(" 项（可处理 ");
    append_decimal(&mut result, actionable_count as u64);
    result.append("）｜ 已勾选 ");
    append_decimal(&mut result, checked as u64);
    result.append(" 项 ｜ 后台监控：");
    result.append(watch_text(running));
    result
}

/// The question before checked processes are ended.
pub fn confirmation_text(entries: &[Entry]) -> (result: String)
    requires
        child_total(model::entry_models(entries@)) <= usize::MAX,
    ensures
        result@ == confirmation(model::entry_models(entries@)),
{
    let ghost models = model::entry_models(entries@);
    let mut unowned_count: usize = 0;
    let mut active_count: usize = 0;
    let mut children: usize = 0;
    let mut named: Vec<String> = Vec::new();
    for i in 0..entries.len()
        invariant
            models == model::entry_models(entries@),
            child_total(models) <= usize::MAX,
            unowned_count <= i,
            active_count <= i,
            unowned_count == unowned(models.take(i as int)).len(),
            active_count == active(models.take(i as int)).len(),
            children == child_total(models.take(i as int)),
            text::strings(named@) == preview_lines(models, lesser(i as nat, PREVIEW_LINES as nat)),
    {
        let entry: &Entry = &entries[i];
        assert(models[i as int] == entry@);
        proof {
            lemma_filter_takes_one_more(
                models,
                |entry: EntryModel| !entry.learned_owned,
                i as int,
            );
            lemma_filter_takes_one_more(
                models,
                |entry: EntryModel| entry.status == Status::Owned,
                i as int,
            );
            assert(models.take(i + 1).drop_last() =~= models.take(i as int));
            lemma_child_total_grows(models, i + 1);
        }
        if !entry.learned_owned {
            unowned_count += 1;
        }
        if entry.status == Status::Owned {
            active_count += 1;
        }
        children += entry.child_count;
        if i < PREVIEW_LINES {
            let mut line = "PID ".to_owned();
            append_decimal(&mut line, entry.pid as u64);
            line.append("  ");
            line.append(entry.name.as_str());
            line.append("  ");
            line.append(entry.status.display_name());
            assert(line@ == preview_line(models[i as int]));
            let ghost before = text::strings(named@);
            named.push(line);
            assert(text::strings(named@) =~= before.push(line@));
        }
        assert(text::strings(named@) =~= preview_lines(
            models,
            lesser((i + 1) as nat, PREVIEW_LINES as nat),
        ));
    }
    assert(models.take(entries@.len() as int) =~= models);
    let mut result =
        "⚠️ 危险操作检测！\r\n操作类型：批量结束已勾选的进程树\r\n影响范围：勾选 ".to_owned();
    append_decimal(&mut result, entries.len() as u64);
    result.append(" 项，关联子进程约 ");
    append_decimal(&mut result, children as u64);
    result.append(" 项；其中正常运行 ");
    append_decimal(&mut result, active_count as u64);
    result.append(" 项、归属未确认 ");
    append_decimal(&mut result, unowned_count as u64);
    result.append(
        " 项。\r\n风险评估：可能中断正在执行的浏览器或工具调用；归属未确认项会被安全拒绝；父子重复选择会自动去重。\r\n\r\n",
    );
    result.append(join(&named, "\r\n").as_str());
    let mut remaining = String::new();
    if entries.len() > PREVIEW_LINES {
        remaining = "\r\n……另有 ".to_owned();
        append_decimal(&mut remaining, (entries.len() - PREVIEW_LINES) as u64);
        remaining.append(" 项");
    }
    result.append(remaining.as_str());
    result.append("\r\n\r\n请确认是否继续？");
    result
}

/// What is next for a batch, by the number of selected entries and the user's answer, if there is
/// one.
pub fn batch_step(selected: usize, answer: Option<i32>) -> (result: BatchStep)
    ensures
        result == step_of(selected as nat, answer),
{
    if selected == 0 {
        return BatchStep::Hint;
    }
    match answer {
        None => BatchStep::Ask,
        Some(answer) => if answer == IDYES {
            BatchStep::End { allow_active: true }
        } else {
            BatchStep::Leave
        },
    }
}

/// The account of what was ended.
pub fn batch_text(batch: &BatchTerminationResult) -> (result: String)
    ensures
        result@ == batch_account(*batch),
{
    let mut named: Vec<String> = Vec::new();
    for i in 0..batch.failures.len()
        invariant
            text::strings(named@) == failure_lines(
                batch.failures@,
                lesser(i as nat, FAILURE_LINES as nat),
            ),
    {
        if i < FAILURE_LINES {
            let mut line = "PID ".to_owned();
            append_decimal(&mut line, batch.failures[i].0 as u64);
            line.append(": ");
            line.append(batch.failures[i].1.as_str());
            assert(line@ == failure_line(batch.failures@[i as int]));
            let ghost before = text::strings(named@);
            named.push(line);
            assert(text::strings(named@) =~= before.push(line@));
        }
        assert(text::strings(named@) =~= failure_lines(
            batch.failures@,
            lesser((i + 1) as nat, FAILURE_LINES as nat),
        ));
    }
    let mut result = "批量操作完成。\r\n请求：".to_owned();
    append_decimal(&mut result, batch.requested as u64);
    result.append(" 项\r\n实际根进程：");
    append_decimal(&mut result, batch.processed_roots as u64);
    result.append(" 项\r\n因父子重叠跳过：");
    append_decimal(&mut result, batch.skipped_overlaps as u64);
    result.append(" 项\r\n已结束进程：");
    append_decimal(&mut result, batch.terminated_processes as u64);
    result.append(" 个\r\n失败：");
    append_decimal(&mut result, batch.failures.len() as u64);
    result.append(" 项");
    let mut failures = String::new();
    if batch.failures.len() > 0 {
        failures = "\r\n\r\n".to_owned();
        failures.append(join(&named, "\r\n").as_str());
    }
    result.append(failures.as_str());
    result
}

// ---------------------------------------------------------------------------------------------
// Lemmas and laws
// ---------------------------------------------------------------------------------------------
/// What one more element adds to a filtered sequence.
proof fn lemma_filter_takes_one_more(
    entries: Seq<EntryModel>,
    keep: spec_fn(EntryModel) -> bool,
    i: int,
)
    requires
        0 <= i < entries.len(),
    ensures
        entries.take(i + 1).filter(keep).len() == entries.take(i).filter(keep).len() + if keep(
            entries[i],
        ) {
            1int
        } else {
            0int
        },
{
    reveal(Seq::filter);
    assert(entries.take(i + 1).drop_last() =~= entries.take(i));
}

/// The children of some entries are no more than those of all.
proof fn lemma_child_total_grows(entries: Seq<EntryModel>, count: int)
    requires
        0 <= count <= entries.len(),
    ensures
        child_total(entries.take(count)) <= child_total(entries),
    decreases entries.len(),
{
    if count == entries.len() {
        assert(entries.take(count) =~= entries);
    } else {
        lemma_child_total_grows(entries.drop_last(), count);
        assert(entries.drop_last().take(count) =~= entries.take(count));
    }
}

/// Nothing of a batch is ended before the user was asked about something and said yes.
pub proof fn law_batch_needs_a_yes(selected: nat, answer: Option<i32>)
    ensures
        step_of(selected, answer) is End <==> selected > 0 && answer == Some(6i32),
        step_of(selected, answer) is End ==> step_of(selected, answer) == (BatchStep::End {
            allow_active: true,
        }),
        selected > 0 && answer is Some && answer != Some(6i32) ==> step_of(selected, answer)
            == BatchStep::Leave,
        selected > 0 && answer is None ==> step_of(selected, answer) == BatchStep::Ask,
        selected == 0 ==> step_of(selected, answer) == BatchStep::Hint,
{
}

/// Counts add up: those of two lists together are those of each, and one entry counts once where
/// it is of the kind.
pub proof fn law_counts_add_up(a: Seq<EntryModel>, b: Seq<EntryModel>, entry: EntryModel)
    ensures
        child_total(a + b) == child_total(a) + child_total(b),
        child_total(seq![entry]) == entry.child_count,
        attention(a + b).len() == attention(a).len() + attention(b).len(),
        actionable(a + b).len() == actionable(a).len() + actionable(b).len(),
        unowned(a + b).len() == unowned(a).len() + unowned(b).len(),
        active(a + b).len() == active(a).len() + active(b).len(),
        attention(seq![entry]).len() == if entry.status is Owned { 0int } else { 1int },
        active(seq![entry]).len() == if entry.status is Owned { 1int } else { 0int },
        unowned(seq![entry]).len() == if entry.learned_owned { 0int } else { 1int },
        actionable(seq![entry]).len() == if entry.learned_owned && !(entry.status is Owned) {
            1int
        } else {
            0int
        },
    decreases b.len(),
{
    reveal(Seq::filter);
    reveal_with_fuel(child_total, 2);
    reveal_with_fuel(Seq::filter, 2);
    let single = seq![entry];
    assert(single.drop_last() =~= Seq::empty());
    lemma_filter_of_one(entry, |e: EntryModel| listing::wants_attention(e));
    lemma_filter_of_one(entry, |e: EntryModel| is_actionable(e));
    lemma_filter_of_one(entry, |e: EntryModel| !e.learned_owned);
    lemma_filter_of_one(entry, |e: EntryModel| e.status == Status::Owned);
    if b.len() == 0 {
        assert(a + b =~= a);
    } else {
        assert((a + b).drop_last() =~= a + b.drop_last());
        law_counts_add_up(a, b.drop_last(), entry);
    }
}

proof fn lemma_filter_of_one(entry: EntryModel, keep: spec_fn(EntryModel) -> bool)
    ensures
        seq![entry].filter(keep).len() == if keep(entry) { 1int } else { 0int },
{
    reveal(Seq::filter);
    let single = seq![entry];
    let none = Seq::<EntryModel>::empty();
    assert(single.drop_last() =~= none);
    assert(none.filter(keep).len() == 0);
    assert(single.last() == entry);
}

/// A confirmation names the first eight entries, each with its PID, its name and its status, and
/// counts the others.
pub proof fn law_confirmation_names_eight(entries: Seq<EntryModel>, i: int)
    requires
        0 <= i < entries.len(),
        i < 8,
    ensures
        text::has(
            confirmation(entries),
            "PID "@ + decimal::decimal(entries[i].pid as nat) + "  "@ + entries[i].name + "  "@
                + model::status_title(entries[i].status),
        ),
        entries.len() <= 8 ==> remaining_text(entries.len()).len() == 0,
        entries.len() > 8 ==> remaining_text(entries.len()) == "\r\n……另有 "@ + decimal::decimal(
            (entries.len() - 8) as nat,
        ) + " 项"@,
        text::has(confirmation(entries), remaining_text(entries.len())),
        text::has(confirmation(entries), decimal::decimal(entries.len())),
        text::has(confirmation(entries), decimal::decimal(child_total(entries))),
{
    let lines = preview_lines(entries, lesser(entries.len(), PREVIEW_LINES as nat));
    let line = preview_line(entries[i]);
    assert(lines[i] == line);
    let preview = text::joined(lines, "\r\n"@);
    let (front, back) = text::lemma_part_of_joined(lines, "\r\n"@, i);
    let head =
        "⚠️ 危险操作检测！\r\n操作类型：批量结束已勾选的进程树\r\n影响范围：勾选 "@;
    let first = head + decimal::decimal(entries.len());
    let second = first + " 项，关联子进程约 "@;
    let third = second + decimal::decimal(child_total(entries)) + " 项；其中正常运行 "@
        + decimal::decimal(active(entries).len()) + " 项、归属未确认 "@ + decimal::decimal(
        unowned(entries).len(),
    )
        + " 项。\r\n风险评估：可能中断正在执行的浏览器或工具调用；归属未确认项会被安全拒绝；父子重复选择会自动去重。\r\n\r\n"@;
    let end = "\r\n\r\n请确认是否继续？"@;
    let rest = remaining_text(entries.len());
    let whole = confirmation(entries);
    assert(whole =~= third + preview + rest + end);
    text::law_holding_is_standing_between(whole, line);
    assert(whole =~= (third + front) + line + (back + rest + end));
    text::law_holding_is_standing_between(whole, rest);
    assert(whole =~= (third + preview) + rest + end);
    let count = decimal::decimal(entries.len());
    text::law_holding_is_standing_between(whole, count);
    assert(whole =~= head + count + whole.skip(first.len() as int));
    let children = decimal::decimal(child_total(entries));
    text::law_holding_is_standing_between(whole, children);
    assert(whole =~= second + children + whole.skip((second + children).len() as int));
}

/// An account names the first ten failures, each with its PID and its error, and none where there
/// are none.
pub proof fn law_account_names_ten_failures(failures: Seq<(u32, String)>, i: int)
    ensures
        failures.len() == 0 ==> failures_text(failures).len() == 0,
        0 <= i < failures.len() && i < 10 ==> text::has(
            failures_text(failures),
            "PID "@ + decimal::decimal(failures[i].0 as nat) + ": "@ + failures[i].1@,
        ),
        failures.len() > 0 ==> failures_text(failures) == "\r\n\r\n"@ + text::joined(
            Seq::new(
                if failures.len() < 10 {
                    failures.len()
                } else {
                    10
                },
                |k: int|
                    "PID "@ + decimal::decimal(failures[k].0 as nat) + ": "@ + failures[k].1@,
            ),
            "\r\n"@,
        ),
{
    if failures.len() > 0 {
        let count = lesser(failures.len(), FAILURE_LINES as nat);
        let lines = failure_lines(failures, count);
        let wanted = Seq::new(
            if failures.len() < 10 {
                failures.len()
            } else {
                10
            },
            |k: int| "PID "@ + decimal::decimal(failures[k].0 as nat) + ": "@ + failures[k].1@,
        );
        assert(lines =~= wanted);
        if 0 <= i < failures.len() && i < 10 {
            let line = failure_line(failures[i]);
            assert(lines[i] == line);
            let (front, back) = text::lemma_part_of_joined(lines, "\r\n"@, i);
            let whole = failures_text(failures);
            assert(whole =~= ("\r\n\r\n"@ + front) + line + back);
            text::law_holding_is_standing_between(whole, line);
        }
    }
}

/// What stands between two texts is held by the whole.
proof fn lemma_held(whole: Seq<char>, front: Seq<char>, part: Seq<char>, back: Seq<char>)
    requires
        whole == front + part + back,
    ensures
        text::has(whole, part),
{
    text::law_holding_is_standing_between(whole, part);
}

/// Of six texts one after the other, the whole holds each.
proof fn lemma_six_are_held(
    a: Seq<char>,
    b: Seq<char>,
    c: Seq<char>,
    d: Seq<char>,
    e: Seq<char>,
    f: Seq<char>,
)
    ensures
        text::has(a + b + c + d + e + f, a),
        text::has(a + b + c + d + e + f, b),
        text::has(a + b + c + d + e + f, c),
        text::has(a + b + c + d + e + f, d),
        text::has(a + b + c + d + e + f, e),
        text::has(a + b + c + d + e + f, f),
{
    let whole = a + b + c + d + e + f;
    let none = Seq::<char>::empty();
    assert(whole =~= none + a + (b + c + d + e + f));
    lemma_held(whole, none, a, b + c + d + e + f);
    assert(whole =~= a + b + (c + d + e + f));
    lemma_held(whole, a, b, c + d + e + f);
    assert(whole =~= (a + b) + c + (d + e + f));
    lemma_held(whole, a + b, c, d + e + f);
    assert(whole =~= (a + b + c) + d + (e + f));
    lemma_held(whole, a + b + c, d, e + f);
    lemma_held(whole, a + b + c + d, e, f);
    assert(whole =~= (a + b + c + d + e) + f + none);
    lemma_held(whole, a + b + c + d + e, f, none);
}

/// An account tells each number under its own label.
pub proof fn law_account_tells_each_number(result: BatchTerminationResult)
    ensures
        text::has(
            batch_account(result),
            "批量操作完成。\r\n请求："@ + decimal::decimal(result.requested as nat),
        ),
        text::has(
            batch_account(result),
            " 项\r\n实际根进程："@ + decimal::decimal(result.processed_roots as nat),
        ),
        text::has(
            batch_account(result),
            " 项\r\n因父子重叠跳过："@ + decimal::decimal(result.skipped_overlaps as nat),
        ),
        text::has(
            batch_account(result),
            " 项\r\n已结束进程："@ + decimal::decimal(result.terminated_processes as nat),
        ),
        text::has(
            batch_account(result),
            " 个\r\n失败："@ + decimal::decimal(result.failures@.len()),
        ),
        text::has(batch_account(result), " 项"@ + failures_text(result.failures@)),
{
    let a = "批量操作完成。\r\n请求："@ + decimal::decimal(result.requested as nat);
    let b = lemma_label_and_value(
        a,
        " 项\r\n实际根进程："@,
        decimal::decimal(result.processed_roots as nat),
    );
    let c = lemma_label_and_value(
        b,
        " 项\r\n因父子重叠跳过："@,
        decimal::decimal(result.skipped_overlaps as nat),
    );
    let d = lemma_label_and_value(
        c,
        " 项\r\n已结束进程："@,
        decimal::decimal(result.terminated_processes as nat),
    );
    let e = lemma_label_and_value(
        d,
        " 个\r\n失败："@,
        decimal::decimal(result.failures@.len()),
    );
    let f = lemma_label_and_value(e, " 项"@, failures_text(result.failures@));
    assert(batch_account(result) == f);
    lemma_six_are_held(
        a,
        " 项\r\n实际根进程："@ + decimal::decimal(result.processed_roots as nat),
        " 项\r\n因父子重叠跳过："@ + decimal::decimal(result.skipped_overlaps as nat),
        " 项\r\n已结束进程："@ + decimal::decimal(result.terminated_processes as nat),
        " 个\r\n失败："@ + decimal::decimal(result.failures@.len()),
        " 项"@ + failures_text(result.failures@),
    );
}

/// The status line tells each number under its own label.
pub proof fn law_status_line_tells_each_number(
    entries: Seq<EntryModel>,
    visible: nat,
    checked: nat,
    running: bool,
)
    ensures
        text::has(
            summary(entries, visible, checked, running),
            "全部 "@ + decimal::decimal(entries.len()),
        ),
        text::has(
            summary(entries, visible, checked, running),
            " 项 ｜ 当前显示 "@ + decimal::decimal(visible),
        ),
        text::has(
            summary(entries, visible, checked, running),
            " 项 ｜ 需关注 "@ + decimal::decimal(attention(entries).len()),
        ),
        text::has(
            summary(entries, visible, checked, running),
            " 项（可处理 "@ + decimal::decimal(actionable(entries).len()),
        ),
        text::has(
            summary(entries, visible, checked, running),
            "）｜ 已勾选 "@ + decimal::decimal(checked),
        ),
        text::has(
            summary(entries, visible, checked, running),
            " 项 ｜ 后台监控："@ + if running { "运行中"@ } else { "未运行"@ },
        ),
{
    let a = "全部 "@ + decimal::decimal(entries.len());
    let b = lemma_label_and_value(a, " 项 ｜ 当前显示 "@, decimal::decimal(visible));
    let c = lemma_label_and_value(
        b,
        " 项 ｜ 需关注 "@,
        decimal::decimal(attention(entries).len()),
    );
    let d = lemma_label_and_value(
        c,
        " 项（可处理 "@,
        decimal::decimal(actionable(entries).len()),
    );
    let e = lemma_label_and_value(d, "）｜ 已勾选 "@, decimal::decimal(checked));
    let f = lemma_label_and_value(e, " 项 ｜ 后台监控："@, watch_word(running));
    assert(summary(entries, visible, checked, running) == f);
    lemma_six_are_held(
        a,
        " 项 ｜ 当前显示 "@ + decimal::decimal(visible),
        " 项 ｜ 需关注 "@ + decimal::decimal(attention(entries).len()),
        " 项（可处理 "@ + decimal::decimal(actionable(entries).len()),
        "）｜ 已勾选 "@ + decimal::decimal(checked),
        " 项 ｜ 后台监控："@ + watch_word(running),
    );
}

/// After a scan that failed the status line tells the error and that the table shows the last one
/// that succeeded.
pub proof fn law_failed_scan_is_marked(error: Seq<char>, total: nat, running: bool)
    ensures
        text::has(failed_summary(error, total, running), "扫描失败："@ + error),
        text::has(
            failed_summary(error, total, running),
            " ｜ 表格显示上次成功快照（"@ + decimal::decimal(total),
        ),
        text::has(
            failed_summary(error, total, running),
            " 项）｜ 后台监控："@ + if running { "运行中"@ } else { "未运行"@ },
        ),
{
    let whole = failed_summary(error, total, running);
    let a = "扫描失败："@ + error;
    let b = " ｜ 表格显示上次成功快照（"@ + decimal::decimal(total);
    let c = " 项）｜ 后台监控："@ + watch_word(running);
    let none = Seq::<char>::empty();
    assert(whole =~= none + a + (b + c));
    lemma_held(whole, none, a, b + c);
    assert(whole =~= a + b + c);
    lemma_held(whole, a, b, c);
    assert(whole =~= (a + b) + c + none);
    lemma_held(whole, a + b, c, none);
}

/// The confirmation tells each number under its own label.
pub proof fn law_confirmation_tells_each_number(entries: Seq<EntryModel>)
    ensures
        text::has(
            confirmation(entries),
            " 项，关联子进程约 "@ + decimal::decimal(child_total(entries)),
        ),
        text::has(
            confirmation(entries),
            " 项；其中正常运行 "@ + decimal::decimal(active(entries).len()),
        ),
        text::has(
            confirmation(entries),
            " 项、归属未确认 "@ + decimal::decimal(unowned(entries).len()),
        ),
{
    let whole = confirmation(entries);
    let a =
        "⚠️ 危险操作检测！\r\n操作类型：批量结束已勾选的进程树\r\n影响范围：勾选 "@
        + decimal::decimal(entries.len());
    let b = " 项，关联子进程约 "@ + decimal::decimal(child_total(entries));
    let c = " 项；其中正常运行 "@ + decimal::decimal(active(entries).len());
    let d = " 项、归属未确认 "@ + decimal::decimal(unowned(entries).len());
    let rest = whole.skip((a + b + c + d).len() as int);
    assert(whole =~= a + b + (c + d + rest));
    lemma_held(whole, a, b, c + d + rest);
    assert(whole =~= (a + b) + c + (d + rest));
    lemma_held(whole, a + b, c, d + rest);
    assert(whole =~= (a + b + c) + d + rest);
    lemma_held(whole, a + b + c, d, rest);
}

/// The details tell everything under its own label.
pub proof fn law_details_tell_everything(entry: EntryModel, now: u64)
    ensures
        text::has(details(entry, now), "进程："@ + entry.name),
        text::has(details(entry, now), "    PID："@ + decimal::decimal(entry.pid as nat)),
        text::has(details(entry, now), "    父 PID："@ + decimal::decimal(entry.parent_pid as nat)),
        text::has(details(entry, now), "    子进程："@ + decimal::decimal(entry.child_count as nat)),
        text::has(details(entry, now), "\r\n状态："@ + model::status_title(entry.status)),
        text::has(details(entry, now), "（风险："@ + model::status_risk(entry.status)),
        text::has(details(entry, now), "）    类型："@ + model::category_title(entry.category)),
        text::has(
            details(entry, now),
            "    已确认归属："@ + if entry.learned_owned { "是"@ } else { "否"@ },
        ),
        entry.owner_pid == 0 ==> text::has(details(entry, now), "\r\n归属宿主："@ + "未确认"@),
        entry.owner_pid != 0 ==> text::has(
            details(entry, now),
            "\r\n归属宿主："@ + (entry.owner_name + " (PID "@ + decimal::decimal(
                entry.owner_pid as nat,
            ) + ")"@),
        ),
        text::has(
            details(entry, now),
            "\r\n进程关系："@ + if entry.relation_path.len() == 0 {
                "未知"@
            } else {
                entry.relation_path
            },
        ),
        text::has(
            details(entry, now),
            "\r\n运行时长："@ + listing::duration_text(listing::age(entry.started, now) as u64),
        ),
        text::has(
            details(entry, now),
            "    闲置时长："@ + listing::duration_text(listing::idle(entry.last_activity, now)),
        ),
        text::has(details(entry, now), "\r\n\r\n完整命令行：\r\n"@ + entry.command_line),
{
    let parts = detail_parts(entry, now);
    lemma_details_are_parts(entry, now);
    assert forall|i: int| 0 <= i < parts.len() implies text::has(
        details(entry, now),
        #[trigger] parts[i],
    ) by {
        let (front, back) = text::lemma_part_of_joined(parts, Seq::empty(), i);
        lemma_held(details(entry, now), front, parts[i], back);
    }
    assert(parts[0] == "进程："@ + entry.name);
    assert(parts[1] == "    PID："@ + decimal::decimal(entry.pid as nat));
    assert(parts[2] == "    父 PID："@ + decimal::decimal(entry.parent_pid as nat));
    assert(parts[3] == "    子进程："@ + decimal::decimal(entry.child_count as nat));
    assert(parts[4] == "\r\n状态："@ + model::status_title(entry.status));
    assert(parts[5] == "（风险："@ + model::status_risk(entry.status));
    assert(parts[6] == "）    类型："@ + model::category_title(entry.category));
    assert(parts[7] == "    已确认归属："@ + if entry.learned_owned { "是"@ } else { "否"@ });
    assert(parts[8] == "\r\n归属宿主："@ + owner_detail(entry));
    assert(parts[9] == "\r\n进程关系："@ + if entry.relation_path.len() == 0 {
        "未知"@
    } else {
        entry.relation_path
    });
    assert(parts[10] == "\r\n运行时长："@ + listing::duration_text(
        listing::age(entry.started, now) as u64,
    ));
    assert(parts[11] == "    闲置时长："@ + listing::duration_text(
        listing::idle(entry.last_activity, now),
    ));
    assert(parts[12] == "\r\n\r\n完整命令行：\r\n"@ + entry.command_line);
}

/// The details, label by label.
spec fn detail_parts(entry: EntryModel, now: u64) -> Seq<Seq<char>> {
    seq![
        "进程："@ + entry.name,
        "    PID："@ + decimal::decimal(entry.pid as nat),
        "    父 PID："@ + decimal::decimal(entry.parent_pid as nat),
        "    子进程："@ + decimal::decimal(entry.child_count as nat),
        "\r\n状态："@ + model::status_title(entry.status),
        "（风险："@ + model::status_risk(entry.status),
        "）    类型："@ + model::category_title(entry.category),
        "    已确认归属："@ + if entry.learned_owned { "是"@ } else { "否"@ },
        "\r\n归属宿主："@ + owner_detail(entry),
        "\r\n进程关系："@ + if entry.relation_path.len() == 0 {
            "未知"@
        } else {
            entry.relation_path
        },
        "\r\n运行时长："@ + listing::duration_text(listing::age(entry.started, now) as u64),
        "    闲置时长："@ + listing::duration_text(listing::idle(entry.last_activity, now)),
        "\r\n\r\n完整命令行：\r\n"@ + entry.command_line,
    ]
}

proof fn lemma_joined_takes_one_more(parts: Seq<Seq<char>>, i: int)
    requires
        0 < i < parts.len(),
    ensures
        text::joined(parts.take(i + 1), Seq::empty()) == text::joined(
            parts.take(i),
            Seq::empty(),
        ) + parts[i],
{
    assert(parts.take(i + 1).drop_last() =~= parts.take(i));
    assert(text::joined(parts.take(i), Seq::empty()) + Seq::<char>::empty() =~= text::joined(
        parts.take(i),
        Seq::empty(),
    ));
}

proof fn lemma_details_are_parts(entry: EntryModel, now: u64)
    ensures
        details(entry, now) == text::joined(detail_parts(entry, now), Seq::empty()),
{
    let parts = detail_parts(entry, now);
    lemma_joined_takes_one_more(parts, 1);
    lemma_joined_takes_one_more(parts, 2);
    lemma_joined_takes_one_more(parts, 3);
    lemma_joined_takes_one_more(parts, 4);
    lemma_joined_takes_one_more(parts, 5);
    lemma_joined_takes_one_more(parts, 6);
    lemma_joined_takes_one_more(parts, 7);
    lemma_joined_takes_one_more(parts, 8);
    lemma_joined_takes_one_more(parts, 9);
    lemma_joined_takes_one_more(parts, 10);
    lemma_joined_takes_one_more(parts, 11);
    lemma_joined_takes_one_more(parts, 12);
    assert(text::joined(parts.take(1), Seq::empty()) == parts[0]);
    assert(parts.take(13) =~= parts);
    let first = parts[0];
    let one = lemma_label_and_value(
        first,
        "    PID："@,
        decimal::decimal(entry.pid as nat),
    );
    let two = lemma_label_and_value(
        one,
        "    父 PID："@,
        decimal::decimal(entry.parent_pid as nat),
    );
    let three = lemma_label_and_value(
        two,
        "    子进程："@,
        decimal::decimal(entry.child_count as nat),
    );
    let four = lemma_label_and_value(
        three,
        "\r\n状态："@,
        model::status_title(entry.status),
    );
    let five = lemma_label_and_value(
        four,
        "（风险："@,
        model::status_risk(entry.status),
    );
    let six = lemma_label_and_value(
        five,
        "）    类型："@,
        model::category_title(entry.category),
    );
    let seven = lemma_label_and_value(
        six,
        "    已确认归属："@,
        if entry.learned_owned { "是"@ } else { "否"@ },
    );
    let eight = lemma_label_and_value(
        seven,
        "\r\n归属宿主："@,
        owner_detail(entry),
    );
    let nine = lemma_label_and_value(
        eight,
        "\r\n进程关系："@,
        if entry.relation_path.len() == 0 {
        "未知"@
    } else {
        entry.relation_path
    },
    );
    let ten = lemma_label_and_value(
        nine,
        "\r\n运行时长："@,
        listing::duration_text(listing::age(entry.started, now) as u64),
    );
    let eleven = lemma_label_and_value(
        ten,
        "    闲置时长："@,
        listing::duration_text(listing::idle(entry.last_activity, now)),
    );
    let twelve = lemma_label_and_value(
        eleven,
        "\r\n\r\n完整命令行：\r\n"@,
        entry.command_line,
    );
    assert(details(entry, now) == twelve);
    assert(text::joined(parts, Seq::empty()) == twelve);
}

/// A label and its value behind a text, one by one or together.
proof fn lemma_label_and_value(so_far: Seq<char>, label: Seq<char>, value: Seq<char>) -> (whole: Seq<
    char,
>)
    ensures
        whole == so_far + label + value,
        whole == so_far + (label + value),
{
    assert(so_far + label + value =~= so_far + (label + value));
    so_far + label + value
}

} // verus!
