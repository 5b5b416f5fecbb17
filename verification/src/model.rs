//! The data that the guardian keeps: processes, tracked entries and their classification.
use vstd::prelude::*;

use crate::decimal::{self, append_decimal, to_decimal};
use crate::text::{self, same};

verus! {

/// What kind of helper a process is.
#[derive(Clone, Copy, Debug, PartialEq, Eq, Structural)]
pub enum Category {
    Direct,
    Browser,
    ToolServer,
}

/// How a tracked process stands with its host.
#[derive(Clone, Copy, Debug, PartialEq, Eq, Structural)]
pub enum Status {
    Owned,
    OwnedIdleBrowser,
    OwnedIdleTool,
    GracePeriod,
    Candidate,
    SuspectOnly,
}

/// One process of a system snapshot. `started` is the creation time in units of 100 ns since
/// 1601, zero where it is not known.
#[derive(Clone, Debug)]
pub struct ProcessInfo {
    pub pid: u32,
    pub parent_pid: u32,
    pub name: String,
    pub command_line: String,
    pub started: u64,
    pub cpu_ticks: u64,
}

/// One tracked process. The times are in seconds since 1970, but for `started`.
#[derive(Clone, Debug)]
pub struct Entry {
    pub identity: String,
    pub pid: u32,
    pub parent_pid: u32,
    pub name: String,
    pub command_line: String,
    pub category: Category,
    pub learned_owned: bool,
    pub first_seen: u64,
    pub last_seen: u64,
    pub last_activity: u64,
    pub cpu_ticks: u64,
    pub orphan_since: u64,
    pub status: Status,
    pub started: u64,
    pub owner_pid: u32,
    pub owner_name: String,
    pub relation_path: String,
    pub child_count: usize,
}

/// What an [`Entry`] says, with its texts as sequences of characters.
#[verifier::ext_equal]
pub struct EntryModel {
    pub identity: Seq<char>,
    pub pid: u32,
    pub parent_pid: u32,
    pub name: Seq<char>,
    pub command_line: Seq<char>,
    pub category: Category,
    pub learned_owned: bool,
    pub first_seen: u64,
    pub last_seen: u64,
    pub last_activity: u64,
    pub cpu_ticks: u64,
    pub orphan_since: u64,
    pub status: Status,
    pub started: u64,
    pub owner_pid: u32,
    pub owner_name: Seq<char>,
    pub relation_path: Seq<char>,
    pub child_count: usize,
}

impl View for Entry {
    type V = EntryModel;

    open spec fn view(&self) -> EntryModel {
        EntryModel {
            identity: self.identity@,
            pid: self.pid,
            parent_pid: self.parent_pid,
            name: self.name@,
            command_line: self.command_line@,
            category: self.category,
            learned_owned: self.learned_owned,
            first_seen: self.first_seen,
            last_seen: self.last_seen,
            last_activity: self.last_activity,
            cpu_ticks: self.cpu_ticks,
            orphan_since: self.orphan_since,
            status: self.status,
            started: self.started,
            owner_pid: self.owner_pid,
            owner_name: self.owner_name@,
            relation_path: self.relation_path@,
            child_count: self.child_count,
        }
    }
}

/// What each entry says.
pub open spec fn entry_models(entries: Seq<Entry>) -> Seq<EntryModel> {
    entries.map_values(|entry: Entry| entry@)
}

// ---------------------------------------------------------------------------------------------
// Names
// ---------------------------------------------------------------------------------------------
/// The name of a category in the state file.
pub open spec fn category_key(category: Category) -> Seq<char> {
    match category {
        Category::Direct => "Direct"@,
        Category::Browser => "Browser"@,
        Category::ToolServer => "ToolServer"@,
    }
}

/// The name of a category for the user.
pub open spec fn category_title(category: Category) -> Seq<char> {
    match category {
        Category::Direct => "Codex 核心"@,
        Category::Browser => "浏览器自动化"@,
        Category::ToolServer => "工具服务"@,
    }
}

/// The name of a status in the state file.
pub open spec fn status_key(status: Status) -> Seq<char> {
    match status {
        Status::Owned => "Owned"@,
        Status::OwnedIdleBrowser => "OwnedIdleBrowser"@,
        Status::OwnedIdleTool => "OwnedIdleTool"@,
        Status::GracePeriod => "GracePeriod"@,
        Status::Candidate => "Candidate"@,
        Status::SuspectOnly => "SuspectOnly"@,
    }
}

/// The name of a status for the user.
pub open spec fn status_title(status: Status) -> Seq<char> {
    match status {
        Status::Owned => "正常运行"@,
        Status::OwnedIdleBrowser => "浏览器闲置"@,
        Status::OwnedIdleTool => "工具服务闲置"@,
        Status::GracePeriod => "等待清理"@,
        Status::Candidate => "建议清理"@,
        Status::SuspectOnly => "归属未确认"@,
    }
}

/// The risk that goes with a status.
pub open spec fn status_risk(status: Status) -> Seq<char> {
    match status {
        Status::Candidate => "高"@,
        Status::OwnedIdleBrowser | Status::OwnedIdleTool => "中"@,
        Status::GracePeriod | Status::SuspectOnly => "低"@,
        Status::Owned => "正常"@,
    }
}

/// The category with the given name in the state file.
pub open spec fn category_of_key(key: Seq<char>) -> Option<Category> {
    if key == "Direct"@ {
        Some(Category::Direct)
    } else if key == "Browser"@ {
        Some(Category::Browser)
    } else if key == "ToolServer"@ {
        Some(Category::ToolServer)
    } else {
        None
    }
}

/// The status with the given name in the state file.
pub open spec fn status_of_key(key: Seq<char>) -> Option<Status> {
    if key == "Owned"@ {
        Some(Status::Owned)
    } else if key == "OwnedIdleBrowser"@ {
        Some(Status::OwnedIdleBrowser)
    } else if key == "OwnedIdleTool"@ {
        Some(Status::OwnedIdleTool)
    } else if key == "GracePeriod"@ {
        Some(Status::GracePeriod)
    } else if key == "Candidate"@ {
        Some(Status::Candidate)
    } else if key == "SuspectOnly"@ {
        Some(Status::SuspectOnly)
    } else {
        None
    }
}

impl Category {
    /// The name in the state file.
    pub fn as_str(&self) -> (result: &'static str)
        ensures
            result@ == category_key(*self),
    {
        match self {
            Self::Direct => "Direct",
            Self::Browser => "Browser",
            Self::ToolServer => "ToolServer",
        }
    }

    /// The category with the given name in the state file.
    pub fn parse(value: &[char]) -> (result: Option<Self>)
        ensures
            result == category_of_key(value@),
    {
        if same(value, "Direct") {
            Some(Self::Direct)
        } else if same(value, "Browser") {
            Some(Self::Browser)
        } else if same(value, "ToolServer") {
            Some(Self::ToolServer)
        } else {
            None
        }
    }

    /// The name for the user.
    pub fn display_name(&self) -> (result: &'static str)
        ensures
            result@ == category_title(*self),
    {
        match self {
            Self::Direct => "Codex 核心",
            Self::Browser => "浏览器自动化",
            Self::ToolServer => "工具服务",
        }
    }
}

impl Status {
    /// The name in the state file.
    pub fn as_str(&self) -> (result: &'static str)
        ensures
            result@ == status_key(*self),
    {
        match self {
            Self::Owned => "Owned",
            Self::OwnedIdleBrowser => "OwnedIdleBrowser",
            Self::OwnedIdleTool => "OwnedIdleTool",
            Self::GracePeriod => "GracePeriod",
            Self::Candidate => "Candidate",
            Self::SuspectOnly => "SuspectOnly",
        }
    }

    /// The status with the given name in the state file.
    pub fn parse(value: &[char]) -> (result: Option<Self>)
        ensures
            result == status_of_key(value@),
    {
        if same(value, "Owned") {
            Some(Self::Owned)
        } else if same(value, "OwnedIdleBrowser") {
            Some(Self::OwnedIdleBrowser)
        } else if same(value, "OwnedIdleTool") {
            Some(Self::OwnedIdleTool)
        } else if same(value, "GracePeriod") {
            Some(Self::GracePeriod)
        } else if same(value, "Candidate") {
            Some(Self::Candidate)
        } else if same(value, "SuspectOnly") {
            Some(Self::SuspectOnly)
        } else {
            None
        }
    }

    /// The name for the user.
    pub fn display_name(&self) -> (result: &'static str)
        ensures
            result@ == status_title(*self),
    {
        match self {
            Self::Owned => "正常运行",
            Self::OwnedIdleBrowser => "浏览器闲置",
            Self::OwnedIdleTool => "工具服务闲置",
            Self::GracePeriod => "等待清理",
            Self::Candidate => "建议清理",
            Self::SuspectOnly => "归属未确认",
        }
    }

    /// The risk that goes with the status.
    pub fn risk_name(&self) -> (result: &'static str)
        ensures
            result@ == status_risk(*self),
    {
        match self {
            Self::Candidate => "高",
            Self::OwnedIdleBrowser | Self::OwnedIdleTool => "中",
            Self::GracePeriod | Self::SuspectOnly => "低",
            Self::Owned => "正常",
        }
    }
}

/// The name of a category reads back as the category.
pub proof fn law_category_key_reads_back(category: Category)
    ensures
        category_of_key(category_key(category)) == Some(category),
{
    reveal_strlit("Direct");
    reveal_strlit("Browser");
    reveal_strlit("ToolServer");
    assert("Direct"@.len() == 6);
    assert("Browser"@.len() == 7);
    assert("ToolServer"@.len() == 10);
}

/// The name of a status reads back as the status.
pub proof fn law_status_key_reads_back(status: Status)
    ensures
        status_of_key(status_key(status)) == Some(status),
{
    reveal_strlit("Owned");
    reveal_strlit("OwnedIdleBrowser");
    reveal_strlit("OwnedIdleTool");
    reveal_strlit("GracePeriod");
    reveal_strlit("Candidate");
    reveal_strlit("SuspectOnly");
    assert("Owned"@.len() == 5);
    assert("OwnedIdleBrowser"@.len() == 16);
    assert("OwnedIdleTool"@.len() == 13);
    assert("Candidate"@.len() == 9);
    assert("GracePeriod"@[0] == 'G');
    assert("SuspectOnly"@[0] == 'S');
    assert("GracePeriod"@.len() == 11);
    assert("SuspectOnly"@.len() == 11);
}

// ---------------------------------------------------------------------------------------------
// Identity
// ---------------------------------------------------------------------------------------------
/// The identity of a process: its PID and its creation time.
pub open spec fn identity_text(pid: u32, started: u64) -> Seq<char> {
    decimal::decimal(pid as nat).push('|') + decimal::decimal(started as nat)
}

/// The identity of a process: its PID and its creation time.
pub fn identity(process: &ProcessInfo) -> (result: String)
    ensures
        result@ == identity_text(process.pid, process.started),
{
    let mut result = to_decimal(process.pid as u64);
    result.push('|');
    append_decimal(&mut result, process.started);
    result
}

/// A numeral in front of a bar ends where the bar stands.
proof fn lemma_bar_position(pid: nat, rest: Seq<char>, other: nat, other_rest: Seq<char>)
    requires
        decimal::decimal(pid).push('|') + rest == decimal::decimal(other).push('|') + other_rest,
    ensures
        decimal::decimal(pid).len() >= decimal::decimal(other).len(),
{
    decimal::lemma_decimal_is_digits(pid);
    decimal::lemma_decimal_is_digits(other);
    let whole = decimal::decimal(pid).push('|') + rest;
    let at = decimal::decimal(pid).len() as int;
    if at < decimal::decimal(other).len() {
        assert(whole[at] == '|');
        assert((decimal::decimal(other).push('|') + other_rest)[at] == decimal::decimal(other)[at]);
        assert(decimal::is_digit(decimal::decimal(other)[at]));
    }
}

/// Two processes with the same identity have the same PID and the same creation time, so a PID
/// that the system has given out again is never taken for the process that had it before.
pub proof fn law_identity_tells_processes_apart(
    pid: u32,
    started: u64,
    other_pid: u32,
    other_started: u64,
)
    requires
        identity_text(pid, started) == identity_text(other_pid, other_started),
    ensures
        pid == other_pid,
        started == other_started,
{
    let a = decimal::decimal(pid as nat);
    let b = decimal::decimal(other_pid as nat);
    let x = decimal::decimal(started as nat);
    let y = decimal::decimal(other_started as nat);
    let whole = identity_text(pid, started);
    lemma_bar_position(pid as nat, x, other_pid as nat, y);
    lemma_bar_position(other_pid as nat, y, pid as nat, x);
    assert(whole.take(a.len() as int) =~= a);
    assert(whole.take(b.len() as int) =~= b);
    assert(whole.skip(a.len() as int + 1) =~= x);
    assert(whole.skip(b.len() as int + 1) =~= y);
    decimal::law_decimal_is_injective(pid as nat, other_pid as nat);
    decimal::law_decimal_is_injective(started as nat, other_started as nat);
}

// ---------------------------------------------------------------------------------------------
// Batches
// ---------------------------------------------------------------------------------------------
/// How a batch of terminations ended.
#[derive(Clone, Debug)]
pub struct BatchTerminationResult {
    pub requested: usize,
    pub processed_roots: usize,
    pub terminated_processes: usize,
    pub skipped_overlaps: usize,
    pub failures: Vec<(u32, String)>,
}

impl Default for BatchTerminationResult {
    fn default() -> (result: Self)
        ensures
            result.requested == 0,
            result.processed_roots == 0,
            result.terminated_processes == 0,
            result.skipped_overlaps == 0,
            result.failures@ == Seq::<(u32, String)>::empty(),
    {
        BatchTerminationResult {
            requested: 0,
            processed_roots: 0,
            terminated_processes: 0,
            skipped_overlaps: 0,
            failures: Vec::new(),
        }
    }
}

/// The identity of a process is its PID and its creation time with a bar between them.
pub proof fn law_identity_is_pid_and_time(pid: u32, started: u64)
    ensures
        text::split_at_first(identity_text(pid, started), '|') == Some(
            (decimal::decimal(pid as nat), decimal::decimal(started as nat)),
        ),
{
    let front = decimal::decimal(pid as nat);
    let back = decimal::decimal(started as nat);
    let whole = identity_text(pid, started);
    decimal::lemma_decimal_is_digits(pid as nat);
    whole.index_of_first_ensures('|');
    assert(whole[front.len() as int] == '|');
    let at = whole.index_of_first('|')->0;
    if at < front.len() {
        assert(whole[at] == front[at]);
        assert(decimal::is_digit(front[at]));
    }
    if at > front.len() {
        assert(whole.take(at)[front.len() as int] == '|');
    }
    assert(whole.take(at) =~= front);
    assert(whole.skip(at + 1) =~= back);
}

/// Only the names that are written are read: a word that reads as a category or a status is its
/// name.
pub proof fn law_only_written_names_are_read(word: Seq<char>)
    ensures
        category_of_key(word) matches Some(category) ==> category_key(category) == word,
        status_of_key(word) matches Some(status) ==> status_key(status) == word,
        category_of_key(word) is Some <==> word == "Direct"@ || word == "Browser"@ || word
            == "ToolServer"@,
        status_of_key(word) is Some <==> word == "Owned"@ || word == "OwnedIdleBrowser"@ || word
            == "OwnedIdleTool"@ || word == "GracePeriod"@ || word == "Candidate"@ || word
            == "SuspectOnly"@,
{
}

/// What the user reads of a status tells it from the others, and tells how pressing it is: the
/// risk is high for what should be ended, middling for what idles below its host, none for what
/// runs normally, and low for the rest.
pub proof fn law_titles_tell_statuses_apart(a: Status, b: Status)
    ensures
        status_title(a) == status_title(b) ==> a == b,
        status_risk(a) == "高"@ <==> a == Status::Candidate,
        status_risk(a) == "中"@ <==> a == Status::OwnedIdleBrowser || a == Status::OwnedIdleTool,
        status_risk(a) == "低"@ <==> a == Status::GracePeriod || a == Status::SuspectOnly,
        status_risk(a) == "正常"@ <==> a == Status::Owned,
        status_title(a) == "正常运行"@ <==> a == Status::Owned,
        status_title(a) == "浏览器闲置"@ <==> a == Status::OwnedIdleBrowser,
        status_title(a) == "工具服务闲置"@ <==> a == Status::OwnedIdleTool,
        status_title(a) == "等待清理"@ <==> a == Status::GracePeriod,
        status_title(a) == "建议清理"@ <==> a == Status::Candidate,
        status_title(a) == "归属未确认"@ <==> a == Status::SuspectOnly,
{
    reveal_strlit("高");
    reveal_strlit("中");
    reveal_strlit("低");
    reveal_strlit("正常");
    assert("高"@[0] != "中"@[0] && "中"@[0] != "低"@[0] && "高"@[0] != "低"@[0]);
    assert("高"@.len() == 1 && "中"@.len() == 1 && "低"@.len() == 1 && "正常"@.len() == 2);
    reveal_strlit("正常运行");
    reveal_strlit("浏览器闲置");
    reveal_strlit("工具服务闲置");
    reveal_strlit("等待清理");
    reveal_strlit("建议清理");
    reveal_strlit("归属未确认");
    assert("正常运行"@.len() == 4 && "等待清理"@.len() == 4 && "建议清理"@.len() == 4);
    assert("浏览器闲置"@.len() == 5 && "归属未确认"@.len() == 5 && "工具服务闲置"@.len() == 6);
    assert("正常运行"@[0] != "等待清理"@[0] && "等待清理"@[0] != "建议清理"@[0]
        && "正常运行"@[0] != "建议清理"@[0]);
    assert("浏览器闲置"@[0] != "归属未确认"@[0]);
}

/// What the user reads of a category tells it from the others.
pub proof fn law_titles_tell_categories_apart(category: Category)
    ensures
        category_title(category) == "Codex 核心"@ <==> category == Category::Direct,
        category_title(category) == "浏览器自动化"@ <==> category == Category::Browser,
        category_title(category) == "工具服务"@ <==> category == Category::ToolServer,
{
    reveal_strlit("Codex 核心");
    reveal_strlit("浏览器自动化");
    reveal_strlit("工具服务");
    assert("Codex 核心"@.len() == 8 && "浏览器自动化"@.len() == 6 && "工具服务"@.len() == 4);
}

} // verus!
