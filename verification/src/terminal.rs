//! The terminal: what it shows, and what the user's answers ask for.
use vstd::prelude::*;

use crate::decimal::{self, append_decimal, parse_number};
use crate::listing::{self, find_entry, format_entry};
use crate::model::{self, Entry, EntryModel, Status};
use crate::terminate;
use crate::text::{self, chars_of, lower_chars, same, string_of, trim};

verus! {

/// What the user chose.
#[derive(Clone, Copy, Debug, PartialEq, Eq, Structural)]
pub enum Choice {
    Quit,
    Refresh,
    OpenLog,
    /// End the process with this number in the list, or with this PID.
    End(u32),
    Nothing,
}

// ---------------------------------------------------------------------------------------------
// Models
// ---------------------------------------------------------------------------------------------
/// What the user chose with the given line. Letters may be great or small.
pub open spec fn choice_of(line: Seq<char>) -> Choice {
    let word = text::trimmed(line);
    if text::ascii_lower(word) == "q"@ {
        Choice::Quit
    } else if text::ascii_lower(word) == "r"@ {
        Choice::Refresh
    } else if text::ascii_lower(word) == "l"@ {
        Choice::OpenLog
    } else {
        match decimal::number(word, u32::MAX as nat) {
            Some(value) => Choice::End(value as u32),
            None => Choice::Nothing,
        }
    }
}

/// The position of the entry that the user wants to end, or why it cannot be ended.
pub open spec fn picked(entries: Seq<EntryModel>, value: u32) -> Result<int, Seq<char>> {
    match listing::found_position(entries, value) {
        Some(at) => if entries[at].learned_owned {
            Ok(at)
        } else {
            Err("该进程未确认由 ChatGPT/Codex 启动，拒绝结束。"@)
        },
        None => Err("未找到对应进程。"@),
    }
}

/// The user agrees with the given line.
pub open spec fn agrees(line: Seq<char>) -> bool {
    let word = text::trimmed(line);
    word == "是"@ || word == "确认"@ || word == "继续"@
}

/// The question before a process is ended.
pub open spec fn question(entry: EntryModel) -> Seq<char> {
    "\n⚠️ 危险操作检测！\n操作类型：结束 PID "@ + decimal::decimal(entry.pid as nat) + " "@
        + entry.name + "\n影响范围：该进程及全部子进程；状态 "@ + model::status_key(entry.status)
        + "\n风险评估：可能中断正在执行的浏览器或工具调用。\n请输入“是”、“确认”或“继续”："@
}

/// The list of entries, one to a line.
pub open spec fn listed_lines(entries: Seq<EntryModel>, count: nat) -> Seq<char>
    decreases count,
{
    if count == 0 {
        Seq::empty()
    } else {
        listed_lines(entries, (count - 1) as nat) + listing::terminal_line(
            (count - 1) as nat,
            entries[count - 1],
        ) + "\n"@
    }
}

/// What the terminal shows before it waits for a choice.
pub open spec fn screen(entries: Seq<EntryModel>) -> Seq<char> {
    "Codex Process Guardian - Rust 终端管理器\n\n"@ + (if entries.len() == 0 {
        "当前没有可显示的 ChatGPT/Codex 工具进程。\n"@
    } else {
        Seq::empty()
    }) + listed_lines(entries, entries.len())
        + "\n输入序号或 PID 结束进程；R 刷新；L 打开日志；Q 退出。\n请选择："@
}

// ---------------------------------------------------------------------------------------------
// Functions
// ---------------------------------------------------------------------------------------------
/// What the user chose with the given line.
pub fn choice(line: &str) -> (result: Choice)
    ensures
        result == choice_of(line@),
{
    let word = trim(chars_of(line).as_slice());
    let lowered = lower_chars(string_of(word.as_slice()).as_str());
    if same(lowered.as_slice(), "q") {
        Choice::Quit
    } else if same(lowered.as_slice(), "r") {
        Choice::Refresh
    } else if same(lowered.as_slice(), "l") {
        Choice::OpenLog
    } else {
        match parse_number(word.as_slice(), u32::MAX as u64) {
            Some(value) => Choice::End(value as u32),
            None => Choice::Nothing,
        }
    }
}

/// The entry that the user wants to end, or why it cannot be ended.
pub fn pick<'a>(entries: &'a [Entry], value: u32) -> (result: Result<&'a Entry, String>)
    ensures
        match picked(model::entry_models(entries@), value) {
            Ok(at) => result matches Ok(entry) && *entry == entries@[at],
            Err(reason) => result matches Err(message) && message@ == reason,
        },
{
    match find_entry(entries, value) {
        Some(entry) => {
            if entry.learned_owned {
                Ok(entry)
            } else {
                Err("该进程未确认由 ChatGPT/Codex 启动，拒绝结束。".to_owned())
            }
        },
        None => Err("未找到对应进程。".to_owned()),
    }
}

/// Whether the user agrees with the given line.
pub fn is_confirmed(line: &str) -> (result: bool)
    ensures
        result == agrees(line@),
{
    let word = trim(chars_of(line).as_slice());
    same(word.as_slice(), "是") || same(word.as_slice(), "确认") || same(word.as_slice(), "继续")
}

/// Whether the entry that the user agreed to end runs normally, which the user then allows.
pub fn allows_active(entry: &Entry) -> (result: bool)
    ensures
        result == (entry.status == Status::Owned),
{
    entry.status == Status::Owned
}

/// The question before a process is ended.
pub fn question_text(entry: &Entry) -> (result: String)
    ensures
        result@ == question(entry@),
{
    let mut result = "\n⚠️ 危险操作检测！\n操作类型：结束 PID ".to_owned();
    append_decimal(&mut result, entry.pid as u64);
    result.append(" ");
    result.append(entry.name.as_str());
    result.append("\n影响范围：该进程及全部子进程；状态 ");
    result.append(entry.status.as_str());
    result.append(
        "\n风险评估：可能中断正在执行的浏览器或工具调用。\n请输入“是”、“确认”或“继续”：",
    );
    result
}

/// What is said of a tree that was ended.
pub open spec fn end_told(count: nat) -> Seq<char> {
    "已结束进程树，共 "@ + decimal::decimal(count) + " 个进程。"@
}

/// What is said of a tree that was not.
pub open spec fn failure_told(error: Seq<char>) -> Seq<char> {
    "结束失败："@ + error
}

/// What came of ending a process.
pub fn outcome_text(outcome: &Result<usize, String>) -> (result: String)
    ensures
        outcome matches Ok(count) ==> result@ == end_told(*count as nat),
        outcome matches Err(error) ==> result@ == failure_told(error@),
        result@ == match outcome {
            Ok(count) => "已结束进程树，共 "@ + decimal::decimal(*count as nat) + " 个进程。"@,
            Err(error) => "结束失败："@ + error@,
        },
{
    match outcome {
        Ok(count) => {
            let mut result = "已结束进程树，共 ".to_owned();
            append_decimal(&mut result, *count as u64);
            result.append(" 个进程。");
            result
        },
        Err(error) => {
            let mut result = "结束失败：".to_owned();
            result.append(error.as_str());
            result
        },
    }
}

/// The list of entries, one to a line.
pub fn list_text(entries: &[Entry]) -> (result: String)
    ensures
        result@ == listed_lines(model::entry_models(entries@), entries@.len()),
{
    let ghost models = model::entry_models(entries@);
    let mut result = String::new();
    for i in 0..entries.len()
        invariant
            models == model::entry_models(entries@),
            result@ == listed_lines(models, i as nat),
    {
        assert(models[i as int] == entries@[i as int]@);
        result.append(format_entry(i, &entries[i]).as_str());
        result.append("\n");
    }
    result
}

/// What the terminal shows before it waits for a choice.
pub fn screen_text(entries: &[Entry]) -> (result: String)
    ensures
        result@ == screen(model::entry_models(entries@)),
{
    let mut result = "Codex Process Guardian - Rust 终端管理器\n\n".to_owned();
    let mut note = String::new();
    if entries.len() == 0 {
        note = "当前没有可显示的 ChatGPT/Codex 工具进程。\n".to_owned();
    }
    result.append(note.as_str());
    result.append(list_text(entries).as_str());
    result.append("\n输入序号或 PID 结束进程；R 刷新；L 打开日志；Q 退出。\n请选择：");
    result
}

// ---------------------------------------------------------------------------------------------
// Laws
// ---------------------------------------------------------------------------------------------
/// The terminal asks only about processes that an owner started, and what the user then agrees
/// to is not refused.
pub proof fn law_picked_entry_may_be_ended(entries: Seq<EntryModel>, value: u32)
    requires
        picked(entries, value) is Ok,
    ensures
        entries[picked(entries, value)->Ok_0].learned_owned,
        terminate::refusal(
            entries[picked(entries, value)->Ok_0],
            entries[picked(entries, value)->Ok_0].status == Status::Owned,
        ) is None,
{
}

/// What the user's line means depends on what stands between the white space at its ends. The
/// letters Q, R and L, great or small, are commands; a number of 32 bits is one of the list or a
/// PID; anything else is nothing.
pub proof fn law_choices_are_letters_and_numbers(line: Seq<char>)
    ensures
        ({
            let word = text::trimmed(line);
            let made = choice_of(line);
            &&& made is Quit <==> word == seq!['q'] || word == seq!['Q']
            &&& made is Refresh <==> word == seq!['r'] || word == seq!['R']
            &&& made is OpenLog <==> word == seq!['l'] || word == seq!['L']
            &&& decimal::number(word, 0xffff_ffff) matches Some(value) ==> made == Choice::End(
                value as u32,
            )
            &&& made is End ==> decimal::number(word, 0xffff_ffff) is Some
        }),
{
    let word = text::trimmed(line);
    reveal_strlit("q");
    reveal_strlit("r");
    reveal_strlit("l");
    lemma_letter(word, 'q', 'Q');
    lemma_letter(word, 'r', 'R');
    lemma_letter(word, 'l', 'L');
    assert("q"@ =~= seq!['q'] && "r"@ =~= seq!['r'] && "l"@ =~= seq!['l']);
    assert(seq!['q'][0] != seq!['r'][0] && seq!['q'][0] != seq!['l'][0] && seq!['r'][0]
        != seq!['l'][0]);
    if decimal::number(word, 0xffff_ffff) is Some && word.len() == 1 {
        decimal::law_numbers_are_made_of_digits(word, 0xffff_ffff);
        assert(word[0] == '+' || '0' <= word[0] <= '9');
    }
}

/// A word is one letter, great or small.
proof fn lemma_letter(word: Seq<char>, small: char, great: char)
    requires
        'a' <= small <= 'z',
        great as u32 + 32 == small as u32,
        'A' <= great <= 'Z',
    ensures
        text::ascii_lower(word) == seq![small] <==> word == seq![small] || word == seq![great],
{
    let lowered = text::ascii_lower(word);
    if word.len() == 1 {
        lemma_lowered_to(word[0], small, great);
        if lowered == seq![small] {
            assert(lowered[0] == small);
            assert(word =~= seq![small] || word =~= seq![great]);
        }
        if word[0] == small || word[0] == great {
            assert(lowered =~= seq![small]);
        }
    } else if lowered == seq![small] {
        assert(lowered.len() == 1);
    }
}

proof fn lemma_lowered_to(c: char, small: char, great: char)
    requires
        'a' <= small <= 'z',
        great as u32 + 32 == small as u32,
    ensures
        text::ascii_lower_char(c) == small <==> c == small || c == great,
{
}

/// Only three words agree: anything else, and nothing at all, is a no.
pub proof fn law_only_three_words_agree(line: Seq<char>)
    ensures
        agrees(line) <==> text::trimmed(line) == "是"@ || text::trimmed(line) == "确认"@
            || text::trimmed(line) == "继续"@,
        text::trimmed(line).len() == 0 ==> !agrees(line),
{
    reveal_strlit("是");
    reveal_strlit("确认");
    reveal_strlit("继续");
    assert("是"@.len() == 1 && "确认"@.len() == 2 && "继续"@.len() == 2);
}

/// An entry is picked exactly where the user's number finds one that a host was seen to start;
/// the message tells the two failures apart.
pub proof fn law_picking_needs_an_owned_entry(entries: Seq<EntryModel>, value: u32)
    ensures
        match listing::found_position(entries, value) {
            None => picked(entries, value) == Err::<int, Seq<char>>("未找到对应进程。"@),
            Some(at) => if entries[at].learned_owned {
                picked(entries, value) == Ok::<int, Seq<char>>(at)
            } else {
                picked(entries, value) == Err::<int, Seq<char>>(
                    "该进程未确认由 ChatGPT/Codex 启动，拒绝结束。"@,
                )
            },
        },
{
}

/// The question names the process and its status.
pub proof fn law_question_names_the_process(entry: EntryModel)
    ensures
        text::has(
            question(entry),
            decimal::decimal(entry.pid as nat) + " "@ + entry.name
                + "\n影响范围：该进程及全部子进程；状态 "@ + model::status_key(entry.status),
        ),
{
    let whole = question(entry);
    let head = "\n⚠️ 危险操作检测！\n操作类型：结束 PID "@;
    let part = decimal::decimal(entry.pid as nat) + " "@ + entry.name
        + "\n影响范围：该进程及全部子进程；状态 "@ + model::status_key(entry.status);
    let rest =
        "\n风险评估：可能中断正在执行的浏览器或工具调用。\n请输入“是”、“确认”或“继续”："@;
    assert(whole =~= head + part + rest);
    text::law_holding_is_standing_between(whole, part);
}

/// The list has one line for each entry, numbered from one: a further entry adds its line behind
/// the others.
pub proof fn law_list_grows_line_by_line(entries: Seq<EntryModel>, entry: EntryModel)
    ensures
        listed_lines(entries.push(entry), (entries.len() + 1) as nat) == listed_lines(
            entries,
            entries.len(),
        ) + listing::terminal_line(entries.len(), entry) + "\n"@,
        listed_lines(entries, 0).len() == 0,
{
    lemma_list_of_the_first(entries, entry, entries.len());
}

proof fn lemma_list_of_the_first(entries: Seq<EntryModel>, entry: EntryModel, count: nat)
    requires
        count <= entries.len(),
    ensures
        listed_lines(entries.push(entry), count) == listed_lines(entries, count),
    decreases count,
{
    if count > 0 {
        lemma_list_of_the_first(entries, entry, (count - 1) as nat);
        assert(entries.push(entry)[count - 1] == entries[count - 1]);
    }
}

/// The screen begins with the title and ends with what the user may enter. Between them stand
/// the lines of the list, or one line that says that there is nothing to list.
pub proof fn law_screen_shows_the_list(entries: Seq<EntryModel>)
    ensures
        entries.len() > 0 ==> screen(entries) == "Codex Process Guardian - Rust 终端管理器\n\n"@
            + listed_lines(entries, entries.len())
            + "\n输入序号或 PID 结束进程；R 刷新；L 打开日志；Q 退出。\n请选择："@,
        entries.len() == 0 ==> screen(entries) == "Codex Process Guardian - Rust 终端管理器\n\n"@
            + "当前没有可显示的 ChatGPT/Codex 工具进程。\n"@
            + "\n输入序号或 PID 结束进程；R 刷新；L 打开日志；Q 退出。\n请选择："@,
{
    let title = "Codex Process Guardian - Rust 终端管理器\n\n"@;
    let nothing = "当前没有可显示的 ChatGPT/Codex 工具进程。\n"@;
    assert(title + Seq::<char>::empty() =~= title);
    assert(title + nothing + Seq::<char>::empty() =~= title + nothing);
}

/// What is said of an end tells the number of processes and nothing but the number changes. What
/// is said of a failure ends with its error, and is never what is said of an end.
pub proof fn law_outcome_is_told(count: nat, other: nat, error: Seq<char>)
    ensures
        text::has(end_told(count), decimal::decimal(count)),
        end_told(count) == end_told(other) ==> count == other,
        failure_told(error).skip(failure_told(error).len() - error.len()) == error,
        failure_told(error) != end_told(count),
        failure_told(error).take(5) == "结束失败："@,
        end_told(count).take(9) == "已结束进程树，共 "@,
{
    reveal_strlit("已结束进程树，共 ");
    reveal_strlit(" 个进程。");
    reveal_strlit("结束失败：");
    let front = "已结束进程树，共 "@;
    let back = " 个进程。"@;
    let whole = end_told(count);
    assert(front.len() == 9);
    text::law_holding_is_standing_between(whole, decimal::decimal(count));
    assert(whole.take(9) =~= front);
    if end_told(count) == end_told(other) {
        assert(end_told(count).skip(9).take(end_told(count).len() - 9 - back.len())
            =~= decimal::decimal(count));
        assert(end_told(other).skip(9).take(end_told(other).len() - 9 - back.len())
            =~= decimal::decimal(other));
        decimal::law_decimal_is_injective(count, other);
    }
    assert(failure_told(error).skip(failure_told(error).len() - error.len()) =~= error);
    assert(failure_told(error).take(5) =~= "结束失败："@);
    assert(failure_told(error)[0] == '结');
    assert(whole[0] == '已');
}

} // verus!
