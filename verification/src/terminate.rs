//! Ending process trees: who may be ended, in what order, and what came of it.
//!
//! A [`Termination`] is driven from outside. [`Termination::next`] says what is to be done, and
//! what came of it is reported back. A process is killed only through a handle whose creation
//! time was compared with that of the snapshot.
use std::collections::{HashMap, HashSet};

use vstd::prelude::*;

use crate::config::Config;
use crate::decimal::{self, append_decimal, to_decimal};
use crate::guardian::Guardian;
use crate::model::{self, BatchTerminationResult, Entry, EntryModel, ProcessInfo, Status, identity};
use crate::scan;
use crate::text::{self, clean_field, join, same_text};
use crate::tree::{self, ancestors, build_children, descendant_ids, index_by_pid};
use crate::watch::WAIT_OBJECT_0;

verus! {

broadcast use vstd::std_specs::hash::group_hash_axioms;

// ---------------------------------------------------------------------------------------------
// Models
// ---------------------------------------------------------------------------------------------
/// Why an entry may not be ended, if it may not.
pub open spec fn refusal(entry: EntryModel, allow_active: bool) -> Option<Seq<char>> {
    if !entry.learned_owned {
        Some("未确认归属 ChatGPT/Codex，拒绝结束"@)
    } else if entry.status == Status::Owned && !allow_active {
        Some("进程仍处于活动宿主树中"@)
    } else {
        None
    }
}

/// The first process with the given PID.
pub open spec fn first_with_pid(processes: Seq<ProcessInfo>, pid: u32) -> Option<ProcessInfo>
    decreases processes.len(),
{
    if processes.len() == 0 {
        None
    } else if processes[0].pid == pid {
        Some(processes[0])
    } else {
        first_with_pid(processes.drop_first(), pid)
    }
}

/// The PIDs with the creation times that the snapshot has for them.
pub open spec fn with_creation_times(processes: Seq<ProcessInfo>, pids: Seq<u32>) -> Seq<
    (u32, u64),
>
    decreases pids.len(),
{
    if pids.len() == 0 {
        Seq::empty()
    } else {
        let before = with_creation_times(processes, pids.drop_last());
        match first_with_pid(processes, pids.last()) {
            Some(process) => before.push((pids.last(), process.started)),
            None => before,
        }
    }
}

/// What is to be ended for the tree below a process: the deepest descendants first, the
/// process itself last.
pub open spec fn targets_for(processes: Seq<ProcessInfo>, root: ProcessInfo) -> Seq<(u32, u64)> {
    with_creation_times(
        processes,
        tree::descendants(tree::child_lists(processes), root.pid),
    ).reverse().push((root.pid, root.started))
}

/// `list`, in increasing order, with `pid` at its place.
pub open spec fn inserted(list: Seq<u32>, pid: u32) -> Seq<u32>
    decreases list.len(),
{
    if list.len() == 0 {
        seq![pid]
    } else if pid < list[0] {
        seq![pid] + list
    } else if pid == list[0] {
        list
    } else {
        seq![list[0]] + inserted(list.drop_first(), pid)
    }
}

/// The PIDs in increasing order, each once.
pub open spec fn in_order(pids: Seq<u32>) -> Seq<u32>
    decreases pids.len(),
{
    if pids.len() == 0 {
        Seq::empty()
    } else {
        inserted(in_order(pids.drop_last()), pids.last())
    }
}

/// The numerals of the PIDs.
pub open spec fn numerals(pids: Seq<u32>) -> Seq<Seq<char>> {
    pids.map_values(|pid: u32| decimal::decimal(pid as nat))
}

/// The message about processes that could not be ended.
pub open spec fn failure_message(failed: Seq<u32>) -> Seq<char> {
    "结束失败，仍存活 PID: ["@ + text::joined(numerals(in_order(failed)), ", "@) + "]"@
}

/// How far a termination is.
#[derive(Clone, Copy, Debug, PartialEq, Eq, Structural)]
pub enum Stage {
    Snapshot,
    Opening,
    Killing,
    Done,
}

/// What is to be done next for a termination.
#[derive(Clone, Copy, Debug, PartialEq, Eq, Structural)]
pub enum Step {
    /// Take a snapshot of all processes.
    TakeSnapshot,
    /// Open the process with this PID and read its creation time through the handle.
    Open(u32),
    /// Kill the process behind the open handle, whose PID is given, and wait for its end.
    Kill(u32),
    /// Nothing: the outcome stands.
    Finish,
}

/// What a [`Termination`] says, with its texts as sequences of characters.
#[verifier::ext_equal]
pub struct TerminationModel {
    pub pid: u32,
    pub identity: Seq<char>,
    pub log_result: bool,
    pub stage: Stage,
    pub targets: Seq<(u32, u64)>,
    pub at: nat,
    pub failed: Seq<u32>,
    pub error: Option<Seq<char>>,
}

impl TerminationModel {
    /// A target is at hand exactly while one is to be opened or killed.
    pub open spec fn wf(self) -> bool {
        &&& (self.stage == Stage::Opening || self.stage == Stage::Killing) ==> self.at
            < self.targets.len()
        &&& self.stage == Stage::Snapshot ==> self.error is None
    }

    /// What is to be done next.
    pub open spec fn step(self) -> Step {
        match self.stage {
            Stage::Snapshot => Step::TakeSnapshot,
            Stage::Opening => Step::Open(self.targets[self.at as int].0),
            Stage::Killing => Step::Kill(self.targets[self.at as int].0),
            Stage::Done => Step::Finish,
        }
    }

    /// The termination has ended with an error before anything was opened.
    pub open spec fn stopped(self, error: Seq<char>) -> TerminationModel {
        TerminationModel { stage: Stage::Done, error: Some(error), ..self }
    }

    /// After the snapshot: the process must still be there, and be the same one.
    pub open spec fn after_snapshot(self, processes: Seq<ProcessInfo>) -> TerminationModel {
        match first_with_pid(processes, self.pid) {
            None => self.stopped("进程已经退出"@),
            Some(current) => if model::identity_text(current.pid, current.started)
                != self.identity {
                self.stopped("PID 已复用，身份校验失败"@)
            } else {
                TerminationModel {
                    stage: Stage::Opening,
                    targets: targets_for(processes, current),
                    at: 0,
                    failed: Seq::empty(),
                    ..self
                }
            },
        }
    }

    /// The target at hand is dealt with, and failed or not.
    pub open spec fn advanced(self, failed: bool) -> TerminationModel {
        TerminationModel {
            stage: if self.at + 1 < self.targets.len() {
                Stage::Opening
            } else {
                Stage::Done
            },
            at: self.at + 1,
            failed: if failed {
                self.failed.push(self.targets[self.at as int].0)
            } else {
                self.failed
            },
            ..self
        }
    }

    /// The target could not be opened. That is a failure only where it still exists.
    pub open spec fn after_open_failed(self, exists_still: bool) -> TerminationModel {
        self.advanced(exists_still)
    }

    /// The target was opened; its handle shows the given creation time, if it shows one. Only
    /// the process of the snapshot is killed.
    pub open spec fn after_opened(self, started: Option<u64>) -> TerminationModel {
        if started == Some(self.targets[self.at as int].1) {
            TerminationModel { stage: Stage::Killing, ..self }
        } else {
            self.advanced(true)
        }
    }

    /// The target was killed, and has exited or not.
    pub open spec fn after_killed(self, exited: bool) -> TerminationModel {
        self.advanced(!exited)
    }

    /// What came of it: the number of ended processes, or a message.
    pub open spec fn outcome(self) -> Result<nat, Seq<char>> {
        match self.error {
            Some(error) => Err(error),
            None => if self.failed.len() > 0 {
                Err(failure_message(self.failed))
            } else {
                Ok(self.targets.len())
            },
        }
    }

    /// The log line about it, if one is wanted. What stopped before anything was opened is not
    /// logged.
    pub open spec fn log_line(self) -> Option<Seq<char>> {
        if !self.log_result || self.error is Some {
            None
        } else if self.failed.len() > 0 {
            Some(
                "terminate_failed pid="@ + decimal::decimal(self.pid as nat) + " "@
                    + failure_message(self.failed),
            )
        } else {
            Some(
                "terminated pid="@ + decimal::decimal(self.pid as nat) + " count="@
                    + decimal::decimal(self.targets.len()),
            )
        }
    }
}

/// The termination of one process tree.
#[derive(Debug)]
pub struct Termination {
    pid: u32,
    identity: String,
    log_result: bool,
    stage: Stage,
    targets: Vec<(u32, u64)>,
    at: usize,
    failed: Vec<u32>,
    error: Option<String>,
}

impl View for Termination {
    type V = TerminationModel;

    closed spec fn view(&self) -> TerminationModel {
        TerminationModel {
            pid: self.pid,
            identity: self.identity@,
            log_result: self.log_result,
            stage: self.stage,
            targets: self.targets@,
            at: self.at as nat,
            failed: self.failed@,
            error: match self.error {
                Some(error) => Some(error@),
                None => None,
            },
        }
    }
}

// ---------------------------------------------------------------------------------------------
// Functions
// ---------------------------------------------------------------------------------------------
/// The position of the first process with the given PID.
fn find_first(processes: &[ProcessInfo], pid: u32) -> (result: Option<usize>)
    ensures
        match result {
            Some(at) => at < processes@.len() && first_with_pid(processes@, pid) == Some(
                processes@[at as int],
            ) && processes@[at as int].pid == pid,
            None => first_with_pid(processes@, pid) is None,
        },
{
    assert(processes@.skip(0) =~= processes@);
    for i in 0..processes.len()
        invariant
            first_with_pid(processes@, pid) == first_with_pid(processes@.skip(i as int), pid),
    {
        assert(processes@.skip(i as int).drop_first() =~= processes@.skip(i + 1));
        if processes[i].pid == pid {
            return Some(i);
        }
    }
    None
}

/// Whether a process with the given PID exists, by a snapshot; where the snapshot failed, it is
/// taken to.
pub fn process_exists(snapshot: Option<&[ProcessInfo]>, pid: u32) -> (result: bool)
    ensures
        snapshot matches Some(processes) ==> result == first_with_pid(processes@, pid) is Some,
        snapshot is None ==> result,
{
    match snapshot {
        Some(processes) => find_first(processes, pid).is_some(),
        None => true,
    }
}

/// The end of a process is confirmed: its end was requested, and the wait on its handle saw it.
pub open spec fn exit_confirmed(requested: bool, wait: u32) -> bool {
    requested && wait == WAIT_OBJECT_0
}

/// Whether a process has exited, by the request for its end and the wait on its handle.
pub fn has_exited(requested: bool, wait: u32) -> (result: bool)
    ensures
        result == (requested && wait == WAIT_OBJECT_0),
        result == exit_confirmed(requested, wait),
{
    requested && wait == WAIT_OBJECT_0
}

/// What is to be ended for the tree below a process.
fn plan_targets(processes: &[ProcessInfo], root: &ProcessInfo) -> (result: Vec<(u32, u64)>)
    ensures
        result@ == targets_for(processes@, *root),
{
    let children = build_children(processes);
    let below = descendant_ids(root.pid, &children);
    let mut found: Vec<(u32, u64)> = Vec::new();
    for i in 0..below.len()
        invariant
            found@ == with_creation_times(processes@, below@.take(i as int)),
    {
        assert(below@.take(i + 1).drop_last() =~= below@.take(i as int));
        if let Some(at) = find_first(processes, below[i]) {
            found.push((below[i], processes[at].started));
        }
    }
    assert(below@.take(below@.len() as int) =~= below@);
    let mut result: Vec<(u32, u64)> = Vec::new();
    let mut left: usize = found.len();
    while left > 0
        invariant
            left <= found@.len(),
            result@ == found@.reverse().take(found@.len() - left),
        decreases left,
    {
        left = left - 1;
        result.push(found[left]);
        assert(result@ =~= found@.reverse().take(found@.len() - left));
    }
    assert(found@.reverse().take(found@.len() as int) =~= found@.reverse());
    result.push((root.pid, root.started));
    result
}

/// What stands before the place of `pid` stays.
proof fn lemma_inserted_behind(list: Seq<u32>, pid: u32, at: int)
    requires
        0 <= at <= list.len(),
        forall|i: int| 0 <= i < at ==> list[i] < pid,
    ensures
        inserted(list, pid) == list.take(at) + inserted(list.skip(at), pid),
    decreases at,
{
    if at == 0 {
        assert(list.skip(0) =~= list);
        assert(list.take(0) + inserted(list, pid) =~= inserted(list, pid));
    } else {
        let rest = list.drop_first();
        assert forall|i: int| 0 <= i < at - 1 implies rest[i] < pid by {
            assert(rest[i] == list[i + 1]);
        }
        lemma_inserted_behind(rest, pid, at - 1);
        assert(rest.skip(at - 1) =~= list.skip(at));
        assert(seq![list[0]] + (rest.take(at - 1) + inserted(list.skip(at), pid)) =~= list.take(at)
            + inserted(list.skip(at), pid));
    }
}

/// The PIDs in increasing order, each once.
fn sort_distinct(pids: &Vec<u32>) -> (result: Vec<u32>)
    ensures
        result@ == in_order(pids@),
{
    let mut result: Vec<u32> = Vec::new();
    assert(result@ =~= in_order(pids@.take(0)));
    for i in 0..pids.len()
        invariant
            result@ == in_order(pids@.take(i as int)),
    {
        assert(pids@.take(i + 1).drop_last() =~= pids@.take(i as int));
        let pid: u32 = pids[i];
        let mut at: usize = 0;
        while at < result.len() && result[at] < pid
            invariant
                at <= result@.len(),
                forall|j: int| 0 <= j < at ==> result@[j] < pid,
            decreases result@.len() - at,
        {
            at = at + 1;
        }
        proof {
            lemma_inserted_behind(result@, pid, at as int);
        }
        let ghost before = result@;
        if at == result.len() || result[at] != pid {
            result.insert(at, pid);
            assert(result@ =~= inserted(before, pid));
        } else {
            assert(before.take(at as int) + before.skip(at as int) =~= before);
        }
    }
    assert(pids@.take(pids@.len() as int) =~= pids@);
    result
}

/// The message about processes that could not be ended.
fn write_failure_message(failed: &Vec<u32>) -> (result: String)
    ensures
        result@ == failure_message(failed@),
{
    let sorted = sort_distinct(failed);
    let mut parts: Vec<String> = Vec::new();
    for i in 0..sorted.len()
        invariant
            text::strings(parts@) == numerals(sorted@).take(i as int),
    {
        let part = to_decimal(sorted[i] as u64);
        let ghost longer = parts@.push(part);
        assert(text::strings(longer) =~= text::strings(parts@).push(part@));
        assert(numerals(sorted@).take(i + 1) =~= numerals(sorted@).take(i as int).push(
            numerals(sorted@)[i as int],
        ));
        parts.push(part);
    }
    assert(numerals(sorted@).take(sorted@.len() as int) =~= numerals(sorted@));
    let mut result = "结束失败，仍存活 PID: [".to_owned();
    result.append(join(&parts, ", ").as_str());
    result.append("]");
    result
}

impl Termination {
    /// What is to be done next.
    pub fn next(&self) -> (result: Step)
        requires
            self@.wf(),
        ensures
            result == self@.step(),
    {
        match self.stage {
            Stage::Snapshot => Step::TakeSnapshot,
            Stage::Opening => Step::Open(self.targets[self.at].0),
            Stage::Killing => Step::Kill(self.targets[self.at].0),
            Stage::Done => Step::Finish,
        }
    }

    /// The snapshot was taken.
    pub fn on_snapshot(&mut self, processes: &[ProcessInfo])
        requires
            old(self)@.wf(),
            old(self)@.stage == Stage::Snapshot,
        ensures
            final(self)@ == old(self)@.after_snapshot(processes@),
            final(self)@.wf(),
    {
        match find_first(processes, self.pid) {
            None => {
                self.error = Some("进程已经退出".to_owned());
                self.stage = Stage::Done;
            },
            Some(at) => {
                let current: &ProcessInfo = &processes[at];
                if !same_text(identity(current).as_str(), self.identity.as_str()) {
                    self.error = Some("PID 已复用，身份校验失败".to_owned());
                    self.stage = Stage::Done;
                } else {
                    self.targets = plan_targets(processes, current);
                    self.at = 0;
                    self.failed = Vec::new();
                    self.stage = Stage::Opening;
                }
            },
        }
    }

    /// The snapshot failed.
    pub fn on_snapshot_failed(&mut self, error: &str)
        requires
            old(self)@.wf(),
            old(self)@.stage == Stage::Snapshot,
        ensures
            final(self)@ == old(self)@.stopped(error@),
            final(self)@.wf(),
    {
        self.error = Some(error.to_owned());
        self.stage = Stage::Done;
    }

    /// The target at hand is dealt with.
    fn advance(&mut self, failed: bool)
        requires
            old(self)@.wf(),
            old(self)@.at < old(self)@.targets.len(),
            old(self)@.stage != Stage::Snapshot,
        ensures
            final(self)@ == old(self)@.advanced(failed),
            final(self)@.wf(),
    {
        let count: usize = self.targets.len();
        if failed {
            self.failed.push(self.targets[self.at].0);
        }
        self.at = self.at + 1;
        self.stage = if self.at < count {
            Stage::Opening
        } else {
            Stage::Done
        };
    }

    /// The target could not be opened, and exists still or not.
    pub fn on_open_failed(&mut self, exists_still: bool)
        requires
            old(self)@.wf(),
            old(self)@.stage == Stage::Opening,
        ensures
            final(self)@ == old(self)@.after_open_failed(exists_still),
            final(self)@.wf(),
    {
        self.advance(exists_still);
    }

    /// The target was opened, and its handle shows the given creation time, if it shows one.
    pub fn on_opened(&mut self, started: Option<u64>)
        requires
            old(self)@.wf(),
            old(self)@.stage == Stage::Opening,
        ensures
            final(self)@ == old(self)@.after_opened(started),
            final(self)@.wf(),
    {
        let same_process = match started {
            Some(time) => time == self.targets[self.at].1,
            None => false,
        };
        if same_process {
            self.stage = Stage::Killing;
        } else {
            self.advance(true);
        }
    }

    /// The end of the target was requested, or the request failed, and the wait for the end gave
    /// the given result.
    pub fn on_killed(&mut self, requested: bool, wait: u32)
        requires
            old(self)@.wf(),
            old(self)@.stage == Stage::Killing,
        ensures
            final(self)@ == old(self)@.after_killed(exit_confirmed(requested, wait)),
            final(self)@.wf(),
    {
        self.advance(!has_exited(requested, wait));
    }

    /// What came of it: the number of ended processes, or a message.
    pub fn outcome(&self) -> (result: Result<usize, String>)
        requires
            self@.stage == Stage::Done,
        ensures
            match result {
                Ok(count) => self@.outcome() == Ok::<nat, Seq<char>>(count as nat),
                Err(message) => self@.outcome() == Err::<nat, Seq<char>>(message@),
            },
    {
        match &self.error {
            Some(error) => Err(error.clone()),
            None => if self.failed.len() > 0 {
                Err(write_failure_message(&self.failed))
            } else {
                Ok(self.targets.len())
            },
        }
    }

    /// The log line about it, if one is wanted.
    pub fn log_line(&self) -> (result: Option<String>)
        requires
            self@.stage == Stage::Done,
        ensures
            match result {
                Some(line) => self@.log_line() == Some(line@),
                None => self@.log_line() is None,
            },
    {
        if !self.log_result || self.error.is_some() {
            return None;
        }
        if self.failed.len() > 0 {
            let mut line = "terminate_failed pid=".to_owned();
            append_decimal(&mut line, self.pid as u64);
            line.append(" ");
            line.append(write_failure_message(&self.failed).as_str());
            Some(line)
        } else {
            let mut line = "terminated pid=".to_owned();
            append_decimal(&mut line, self.pid as u64);
            line.append(" count=");
            append_decimal(&mut line, self.targets.len() as u64);
            Some(line)
        }
    }
}

/// A termination of the given entry at its start.
pub open spec fn started_for(entry: EntryModel, log_result: bool) -> TerminationModel {
    TerminationModel {
        pid: entry.pid,
        identity: entry.identity,
        log_result,
        stage: Stage::Snapshot,
        targets: Seq::empty(),
        at: 0,
        failed: Seq::empty(),
        error: None,
    }
}

/// The result of starting to end an entry: a termination at its start where nothing is held
/// against it, and else the reason.
pub open spec fn is_start(
    result: Result<Termination, String>,
    entry: EntryModel,
    allow_active: bool,
    log_result: bool,
) -> bool {
    match result {
        Ok(termination) => refusal(entry, allow_active) is None && termination@ == started_for(
            entry,
            log_result,
        ),
        Err(message) => refusal(entry, allow_active) == Some(message@),
    }
}

impl Guardian {
    /// Starts to end the tree below an entry at the user's wish, or refuses to. An active
    /// process is ended only where `allow_active` says so.
    pub fn terminate(&self, entry: &Entry, allow_active: bool) -> (result: Result<
        Termination,
        String,
    >)
        ensures
            match result {
                Ok(termination) => refusal(entry@, allow_active) is None && termination@
                    == started_for(entry@, true),
                Err(message) => refusal(entry@, allow_active) == Some(message@),
            },
    {
        self.terminate_internal(entry, allow_active, true)
    }

    /// Starts to end the tree below an entry, or refuses to.
    pub fn terminate_internal(&self, entry: &Entry, allow_active: bool, log_result: bool) -> (result:
        Result<Termination, String>)
        ensures
            match result {
                Ok(termination) => refusal(entry@, allow_active) is None && termination@
                    == started_for(entry@, log_result),
                Err(message) => refusal(entry@, allow_active) == Some(message@),
            },
    {
        if !entry.learned_owned {
            return Err("未确认归属 ChatGPT/Codex，拒绝结束".to_owned());
        }
        if entry.status == Status::Owned && !allow_active {
            return Err("进程仍处于活动宿主树中".to_owned());
        }
        Ok(
            Termination {
                pid: entry.pid,
                identity: entry.identity.clone(),
                log_result,
                stage: Stage::Snapshot,
                targets: Vec::new(),
                at: 0,
                failed: Vec::new(),
                error: None,
            },
        )
    }
}

// ---------------------------------------------------------------------------------------------
// Automatic cleanup
// ---------------------------------------------------------------------------------------------
/// The guardian may end this entry by itself.
pub open spec fn may_clean_up(config: Config, entry: EntryModel) -> bool {
    &&& config.action_terminate
    &&& entry.learned_owned
    &&& {
        ||| entry.status == Status::Candidate
        ||| entry.status == Status::OwnedIdleBrowser && config.terminate_owned_idle_browser
        ||| entry.status == Status::OwnedIdleTool && config.terminate_owned_idle_tool
    }
}

/// The positions of the entries that the guardian may end by itself.
pub open spec fn cleanup_positions(config: Config, entries: Seq<EntryModel>) -> Seq<usize>
    decreases entries.len(),
{
    if entries.len() == 0 {
        Seq::empty()
    } else {
        let before = cleanup_positions(config, entries.drop_last());
        if may_clean_up(config, entries.last()) {
            before.push((entries.len() - 1) as usize)
        } else {
            before
        }
    }
}

/// The line about an entry that could not be ended by the guardian itself.
pub open spec fn cleanup_failure_text(pid: u32, error: Seq<char>) -> Seq<char> {
    "pid="@ + decimal::decimal(pid as nat) + " error="@ + text::cleaned(error)
}

/// The line about an entry that could not be ended by the guardian itself.
fn cleanup_failure(entry: &Entry, error: &str) -> (result: String)
    ensures
        result@ == cleanup_failure_text(entry.pid, error@),
{
    let mut result = "pid=".to_owned();
    append_decimal(&mut result, entry.pid as u64);
    result.append(" error=");
    result.append(clean_field(error).as_str());
    result
}

/// What the guardian ends by itself: the positions of the entries in their order, and for each
/// of them the termination at its start.
pub struct CleanupPlan {
    pub positions: Vec<usize>,
    pub started: Vec<Termination>,
}

/// Each of the entries at the given positions is started without permission for active processes
/// and without a log line, and nothing is held against it.
#[verifier::opaque]
spec fn starts_quietly(
    started: Seq<Termination>,
    positions: Seq<usize>,
    entries: Seq<Entry>,
) -> bool {
    &&& started.len() == positions.len()
    &&& forall|k: int|
        0 <= k < started.len() ==> (#[trigger] started[k])@ == started_for(
            entries[positions[k] as int]@,
            false,
        ) && refusal(entries[positions[k] as int]@, false) is None
}

proof fn lemma_one_more_starts_quietly(
    started: Seq<Termination>,
    positions: Seq<usize>,
    entries: Seq<Entry>,
    termination: Termination,
    i: usize,
)
    requires
        starts_quietly(started, positions, entries),
        termination@ == started_for(entries[i as int]@, false),
        refusal(entries[i as int]@, false) is None,
    ensures
        starts_quietly(started.push(termination), positions.push(i), entries),
{
    reveal(starts_quietly);
    let longer = started.push(termination);
    let places = positions.push(i);
    assert forall|k: int| 0 <= k < longer.len() implies (#[trigger] longer[k])@ == started_for(
        entries[places[k] as int]@,
        false,
    ) && refusal(entries[places[k] as int]@, false) is None by {
        if k < started.len() {
            assert(longer[k] == started[k]);
            assert(places[k] == positions[k]);
        }
    }
}

impl Guardian {
    /// Starts to end an entry without the user. An active process is refused, and what comes of
    /// it is not logged here: the watch logs it.
    pub fn start_cleanup(&self, entry: &Entry) -> (result: Result<Termination, String>)
        ensures
            match result {
                Ok(termination) => refusal(entry@, false) is None && termination@ == started_for(
                    entry@,
                    false,
                ),
                Err(message) => refusal(entry@, false) == Some(message@),
            },
    {
        self.terminate_internal(entry, false, false)
    }

    /// What the guardian ends by itself. Each entry that it may end is started without
    /// permission for active processes and without a log line.
    pub fn automatic_cleanup(&self, entries: &[Entry]) -> (plan: CleanupPlan)
        ensures
            plan.positions@ == cleanup_positions(self.config, model::entry_models(entries@)),
            forall|k: int|
                0 <= k < plan.positions@.len() ==> (#[trigger] plan.positions@[k]) < entries@.len(),
            plan.started@.len() == plan.positions@.len(),
            forall|k: int|
                0 <= k < plan.started@.len() ==> (#[trigger] plan.started@[k])@ == started_for(
                    entries@[plan.positions@[k] as int]@,
                    false,
                ) && refusal(entries@[plan.positions@[k] as int]@, false) is None,
    {
        let ghost models = model::entry_models(entries@);
        let mut positions: Vec<usize> = Vec::new();
        let mut started: Vec<Termination> = Vec::new();
        proof {
            reveal(starts_quietly);
        }
        assert(models.take(0) =~= Seq::empty());
        for i in 0..entries.len()
            invariant
                models == model::entry_models(entries@),
                positions@ == cleanup_positions(self.config, models.take(i as int)),
                forall|k: int| 0 <= k < positions@.len() ==> (#[trigger] positions@[k]) < i,
                starts_quietly(started@, positions@, entries@),
        {
            assert(models.take(i + 1).drop_last() =~= models.take(i as int));
            assert(models.take(i + 1).last() == entries@[i as int]@);
            let entry: &Entry = &entries[i];
            let allowed = entry.status == Status::Candidate || (entry.status
                == Status::OwnedIdleBrowser && self.config.terminate_owned_idle_browser) || (
            entry.status == Status::OwnedIdleTool && self.config.terminate_owned_idle_tool);
            if self.config.action_terminate && allowed && entry.learned_owned {
                if let Ok(termination) = self.start_cleanup(entry) {
                    proof {
                        lemma_one_more_starts_quietly(
                            started@,
                            positions@,
                            entries@,
                            termination,
                            i,
                        );
                    }
                    positions.push(i);
                    started.push(termination);
                }
            }
        }
        proof {
            reveal(starts_quietly);
        }
        assert(models.take(entries@.len() as int) =~= models);
        CleanupPlan { positions, started }
    }
}

/// The lines about the failures among the outcomes.
pub open spec fn failure_texts(failures: Seq<(u32, Seq<char>)>) -> Seq<Seq<char>> {
    failures.map_values(|failure: (u32, Seq<char>)| cleanup_failure_text(failure.0, failure.1))
}

/// The lines about the entries that the guardian could not end by itself, given what came of
/// each that it tried, in their order.
pub fn cleanup_failures(
    entries: &[Entry],
    positions: &[usize],
    outcomes: &[Result<usize, String>],
) -> (result: Vec<String>)
    requires
        outcomes@.len() == positions@.len(),
        forall|k: int| 0 <= k < positions@.len() ==> (#[trigger] positions@[k]) < entries@.len(),
    ensures
        text::strings(result@) == failure_texts(
            failures_in(model::entry_models(entries@), positions@, outcomes@),
        ),
{
    let ghost models = model::entry_models(entries@);
    let mut result: Vec<String> = Vec::new();
    assert(text::strings(result@) =~= failure_texts(
        failures_in(models, positions@, outcomes@.take(0)),
    ));
    for i in 0..outcomes.len()
        invariant
            models == model::entry_models(entries@),
            outcomes@.len() == positions@.len(),
            forall|k: int|
                0 <= k < positions@.len() ==> (#[trigger] positions@[k]) < entries@.len(),
            text::strings(result@) == failure_texts(
                failures_in(models, positions@, outcomes@.take(i as int)),
            ),
    {
        let ghost longer = outcomes@.take(i + 1);
        let ghost before = failures_in(models, positions@, outcomes@.take(i as int));
        assert(longer.drop_last() =~= outcomes@.take(i as int));
        let entry: &Entry = &entries[positions[i]];
        assert(models[positions@[i as int] as int] == entry@);
        if let Err(error) = &outcomes[i] {
            let line = cleanup_failure(entry, error.as_str());
            assert(failure_texts(before.push((entry.pid, error@))) =~= failure_texts(before).push(
                line@,
            ));
            let ghost listed = text::strings(result@);
            result.push(line);
            assert(text::strings(result@) =~= listed.push(line@));
        }
    }
    assert(outcomes@.take(outcomes@.len() as int) =~= outcomes@);
    result
}

// ---------------------------------------------------------------------------------------------
// Batches
// ---------------------------------------------------------------------------------------------
/// The PIDs of the entries.
pub open spec fn pids_of(entries: Seq<EntryModel>) -> Seq<u32> {
    entries.map_values(|entry: EntryModel| entry.pid)
}

/// Some ancestor of the process with the given PID is selected.
pub open spec fn is_below_selected(
    known: Map<u32, ProcessInfo>,
    selected: Seq<u32>,
    pid: u32,
) -> bool {
    &&& known.contains_key(pid)
    &&& exists|i: int|
        0 <= i < tree::ancestors_of(known, known[pid]).len() && selected.contains(
            #[trigger] tree::ancestors_of(known, known[pid])[i],
        )
}

/// The positions, among the first `count` entries, of those that no other selected process is
/// above of.
pub open spec fn root_positions(
    known: Map<u32, ProcessInfo>,
    entries: Seq<EntryModel>,
    count: nat,
) -> Seq<usize>
    decreases count,
{
    if count == 0 {
        Seq::empty()
    } else {
        let before = root_positions(known, entries, (count - 1) as nat);
        if is_below_selected(known, pids_of(entries), entries[count - 1].pid) {
            before
        } else {
            before.push((count - 1) as usize)
        }
    }
}

/// What the failures say.
pub open spec fn failure_models(failures: Seq<(u32, String)>) -> Seq<(u32, Seq<char>)> {
    failures.map_values(|failure: (u32, String)| (failure.0, failure.1@))
}

/// A batch before anything of it is ended: the result so far, and the positions of the entries
/// whose trees are to be ended, each with its termination at its start or the reason why there
/// is none.
pub struct BatchPlan {
    pub result: BatchTerminationResult,
    pub roots: Vec<usize>,
    pub started: Vec<Result<Termination, String>>,
}

/// Each of the entries at the given positions is started with the given permission, or refused.
#[verifier::opaque]
spec fn starts_as_allowed(
    started: Seq<Result<Termination, String>>,
    positions: Seq<usize>,
    entries: Seq<Entry>,
    allow_active: bool,
) -> bool {
    &&& started.len() == positions.len()
    &&& forall|k: int|
        0 <= k < started.len() ==> is_start(
            #[trigger] started[k],
            entries[positions[k] as int]@,
            allow_active,
            true,
        )
}

proof fn lemma_one_more_starts_as_allowed(
    started: Seq<Result<Termination, String>>,
    positions: Seq<usize>,
    entries: Seq<Entry>,
    allow_active: bool,
    start: Result<Termination, String>,
    i: usize,
)
    requires
        starts_as_allowed(started, positions, entries, allow_active),
        is_start(start, entries[i as int]@, allow_active, true),
    ensures
        starts_as_allowed(started.push(start), positions.push(i), entries, allow_active),
{
    reveal(starts_as_allowed);
    let longer = started.push(start);
    let places = positions.push(i);
    assert forall|k: int| 0 <= k < longer.len() implies is_start(
        #[trigger] longer[k],
        entries[places[k] as int]@,
        allow_active,
        true,
    ) by {
        if k < started.len() {
            assert(longer[k] == started[k]);
            assert(places[k] == positions[k]);
        }
    }
}

impl Guardian {
    /// Plans the end of several trees at once. A selected entry below another selected one is
    /// left out, for it is ended with that one. An active process is ended only where
    /// `allow_active` says so. `snapshot` holds the processes, or the error of taking them; it
    /// is not looked at where nothing is selected.
    pub fn terminate_batch(
        &self,
        entries: &[Entry],
        allow_active: bool,
        snapshot: &Result<Vec<ProcessInfo>, String>,
    ) -> (plan: BatchPlan)
        ensures
            plan.result.requested == entries@.len(),
            plan.result.terminated_processes == 0,
            plan.result.processed_roots == plan.roots@.len(),
            forall|k: int|
                0 <= k < plan.roots@.len() ==> (#[trigger] plan.roots@[k]) < entries@.len(),
            plan.started@.len() == plan.roots@.len(),
            forall|k: int|
                0 <= k < plan.started@.len() ==> is_start(
                    #[trigger] plan.started@[k],
                    entries@[plan.roots@[k] as int]@,
                    allow_active,
                    true,
                ),
            (entries@.len() == 0 || snapshot is Err) ==> plan.roots@ == Seq::<usize>::empty()
                && plan.result.skipped_overlaps == 0,
            entries@.len() > 0 ==> (snapshot matches Ok(processes) ==> {
                &&& plan.roots@ == root_positions(
                    tree::by_pid(processes@),
                    model::entry_models(entries@),
                    entries@.len(),
                )
                &&& plan.result.skipped_overlaps == entries@.len() - plan.roots@.len()
            }),
            failure_models(plan.result.failures@) == match snapshot {
                Err(error) => if entries@.len() > 0 {
                    seq![(0u32, "进程快照失败："@ + error@)]
                } else {
                    Seq::empty()
                },
                Ok(_) => Seq::empty(),
            },
    {
        let mut result = BatchTerminationResult::default();
        let mut roots: Vec<usize> = Vec::new();
        let mut started: Vec<Result<Termination, String>> = Vec::new();
        proof {
            reveal(starts_as_allowed);
        }
        result.requested = entries.len();
        assert(failure_models(result.failures@) =~= Seq::empty());
        if entries.len() == 0 {
            return BatchPlan { result, roots, started };
        }
        let processes: &Vec<ProcessInfo> = match snapshot {
            Ok(processes) => processes,
            Err(error) => {
                let mut message = "进程快照失败：".to_owned();
                message.append(error.as_str());
                result.failures.push((0, message));
                assert(failure_models(result.failures@) =~= seq![
                    (0u32, "进程快照失败："@ + error@),
                ]);
                return BatchPlan { result, roots, started };
            },
        };
        let by_id = index_by_pid(processes.as_slice());
        let ghost known = tree::by_pid(processes@);
        let ghost models = model::entry_models(entries@);
        let selected = select_pids(entries);
        for i in 0..entries.len()
            invariant
                known == tree::by_pid(processes@),
                tree::known(by_id@) == known,
                models == model::entry_models(entries@),
                selected@ == pids_of(models).to_set(),
                roots@ == root_positions(known, models, i as nat),
                forall|k: int| 0 <= k < roots@.len() ==> (#[trigger] roots@[k]) < i,
                starts_as_allowed(started@, roots@, entries@, allow_active),
                result.skipped_overlaps == i - roots@.len(),
                result.requested == entries@.len(),
                result.terminated_processes == 0,
                failure_models(result.failures@) == Seq::<(u32, Seq<char>)>::empty(),
        {
            let pid: u32 = entries[i].pid;
            assert(models[i as int].pid == pid);
            if overlaps(&by_id, &selected, pid, Ghost(pids_of(models))) {
                result.skipped_overlaps = result.skipped_overlaps + 1;
            } else {
                let start = self.terminate(&entries[i], allow_active);
                proof {
                    lemma_one_more_starts_as_allowed(
                        started@,
                        roots@,
                        entries@,
                        allow_active,
                        start,
                        i,
                    );
                }
                roots.push(i);
                started.push(start);
            }
        }
        proof {
            reveal(starts_as_allowed);
        }
        result.processed_roots = roots.len();
        BatchPlan { result, roots, started }
    }
}

/// The PIDs of the entries.
fn select_pids(entries: &[Entry]) -> (result: HashSet<u32>)
    ensures
        result@ == pids_of(model::entry_models(entries@)).to_set(),
{
    let ghost pids = pids_of(model::entry_models(entries@));
    let mut result: HashSet<u32> = HashSet::new();
    assert(pids.take(0).to_set() =~= Set::empty());
    for i in 0..entries.len()
        invariant
            pids == pids_of(model::entry_models(entries@)),
            result@ == pids.take(i as int).to_set(),
    {
        let ghost before = pids.take(i as int);
        let ghost after = pids.take(i + 1);
        result.insert(entries[i].pid);
        assert(after =~= before.push(entries@[i as int].pid));
        assert(after.to_set() =~= before.to_set().insert(entries@[i as int].pid)) by {
            assert forall|pid: u32| after.contains(pid) <==> before.contains(pid) || pid
                == entries@[i as int].pid by {
                if before.contains(pid) {
                    let k = choose|k: int| 0 <= k < before.len() && before[k] == pid;
                    assert(after[k] == pid);
                }
                assert(after[i as int] == entries@[i as int].pid);
            }
        }
    }
    assert(pids.take(entries@.len() as int) =~= pids);
    result
}

/// Whether some ancestor of the process with the given PID is selected.
fn overlaps(
    by_id: &HashMap<u32, &ProcessInfo>,
    selected: &HashSet<u32>,
    pid: u32,
    Ghost(pids): Ghost<Seq<u32>>,
) -> (result: bool)
    requires
        selected@ == pids.to_set(),
    ensures
        result == is_below_selected(tree::known(by_id@), pids, pid),
{
    match by_id.get(&pid) {
        None => false,
        Some(process) => {
            assert(tree::known(by_id@)[pid] == **process);
            let above = ancestors(process, by_id);
            for i in 0..above.len()
                invariant
                    tree::known(by_id@).contains_key(pid),
                    above@ == tree::ancestors_of(tree::known(by_id@), tree::known(by_id@)[pid]),
                    selected@ == pids.to_set(),
                    forall|j: int| 0 <= j < i ==> !pids.contains(above@[j]),
            {
                if selected.contains(&above[i]) {
                    assert(pids.contains(above@[i as int]));
                    return true;
                }
            }
            false
        },
    }
}

impl BatchTerminationResult {
    /// Adds what came of ending one tree.
    fn record(&mut self, pid: u32, outcome: Result<usize, String>)
        requires
            outcome matches Ok(count) ==> old(self).terminated_processes + count <= usize::MAX,
        ensures
            final(self).requested == old(self).requested,
            final(self).processed_roots == old(self).processed_roots,
            final(self).skipped_overlaps == old(self).skipped_overlaps,
            final(self).terminated_processes == old(self).terminated_processes + match outcome {
                Ok(count) => count as int,
                Err(_) => 0,
            },
            failure_models(final(self).failures@) == match outcome {
                Ok(_) => failure_models(old(self).failures@),
                Err(error) => failure_models(old(self).failures@).push((pid, error@)),
            },
    {
        match outcome {
            Ok(count) => {
                self.terminated_processes = self.terminated_processes + count;
            },
            Err(error) => {
                let ghost longer = self.failures@.push((pid, error));
                assert(failure_models(longer) =~= failure_models(self.failures@).push(
                    (pid, error@),
                ));
                self.failures.push((pid, error));
            },
        }
    }
}

/// The processes that were ended, all outcomes together.
pub open spec fn ended_in_all(outcomes: Seq<Result<usize, String>>) -> nat
    decreases outcomes.len(),
{
    if outcomes.len() == 0 {
        0
    } else {
        ended_in_all(outcomes.drop_last()) + match outcomes.last() {
            Ok(count) => count as nat,
            Err(_) => 0,
        }
    }
}

/// The failures among the outcomes, each with the PID of the entry that it is about.
pub open spec fn failures_in(
    entries: Seq<EntryModel>,
    positions: Seq<usize>,
    outcomes: Seq<Result<usize, String>>,
) -> Seq<(u32, Seq<char>)>
    decreases outcomes.len(),
{
    if outcomes.len() == 0 {
        Seq::empty()
    } else {
        let before = failures_in(entries, positions, outcomes.drop_last());
        match outcomes.last() {
            Ok(_) => before,
            Err(error) => before.push(
                (entries[positions[outcomes.len() - 1] as int].pid, error@),
            ),
        }
    }
}

impl BatchPlan {
    /// The result of the batch, given what came of each of its trees in their order.
    pub fn finish(self, entries: &[Entry], outcomes: Vec<Result<usize, String>>) -> (result:
        BatchTerminationResult)
        requires
            outcomes@.len() == self.roots@.len(),
            forall|k: int|
                0 <= k < self.roots@.len() ==> (#[trigger] self.roots@[k]) < entries@.len(),
            self.result.terminated_processes + ended_in_all(outcomes@) <= usize::MAX,
        ensures
            result.requested == self.result.requested,
            result.processed_roots == self.result.processed_roots,
            result.skipped_overlaps == self.result.skipped_overlaps,
            result.terminated_processes == self.result.terminated_processes + ended_in_all(
                outcomes@,
            ),
            failure_models(result.failures@) == failure_models(self.result.failures@)
                + failures_in(model::entry_models(entries@), self.roots@, outcomes@),
    {
        let ghost models = model::entry_models(entries@);
        let roots = self.roots;
        let mut result = self.result;
        let ghost start = result;
        assert(outcomes@.take(0) =~= Seq::empty());
        assert(failure_models(start.failures@) + failures_in(models, roots@, outcomes@.take(0))
            =~= failure_models(start.failures@));
        for i in 0..outcomes.len()
            invariant
                models == model::entry_models(entries@),
                outcomes@.len() == roots@.len(),
                forall|k: int| 0 <= k < roots@.len() ==> (#[trigger] roots@[k]) < entries@.len(),
                start.terminated_processes + ended_in_all(outcomes@) <= usize::MAX,
                result.requested == start.requested,
                result.processed_roots == start.processed_roots,
                result.skipped_overlaps == start.skipped_overlaps,
                result.terminated_processes == start.terminated_processes + ended_in_all(
                    outcomes@.take(i as int),
                ),
                failure_models(result.failures@) == failure_models(start.failures@) + failures_in(
                    models,
                    roots@,
                    outcomes@.take(i as int),
                ),
        {
            let ghost shorter = outcomes@.take(i as int);
            let ghost longer = outcomes@.take(i + 1);
            assert(longer.drop_last() =~= shorter);
            proof {
                lemma_ended_grows(outcomes@, i + 1);
            }
            let pid: u32 = entries[roots[i]].pid;
            assert(models[roots@[i as int] as int].pid == pid);
            match &outcomes[i] {
                Ok(count) => result.record(pid, Ok(*count)),
                Err(error) => result.record(pid, Err(error.clone())),
            }
            assert(failure_models(result.failures@) =~= failure_models(start.failures@)
                + failures_in(models, roots@, longer));
        }
        assert(outcomes@.take(outcomes@.len() as int) =~= outcomes@);
        result
    }
}

/// The processes of some outcomes are no more than those of all.
proof fn lemma_ended_grows(outcomes: Seq<Result<usize, String>>, count: int)
    requires
        0 <= count <= outcomes.len(),
    ensures
        ended_in_all(outcomes.take(count)) <= ended_in_all(outcomes),
    decreases outcomes.len(),
{
    if count == outcomes.len() {
        assert(outcomes.take(count) =~= outcomes);
    } else {
        lemma_ended_grows(outcomes.drop_last(), count);
        assert(outcomes.drop_last().take(count) =~= outcomes.take(count));
    }
}

// ---------------------------------------------------------------------------------------------
// Laws
// ---------------------------------------------------------------------------------------------
/// Only what is known to belong to a host is ever ended, and what is active only where that is
/// allowed outright.
pub proof fn law_only_owned_processes_are_ended(entry: EntryModel, allow_active: bool)
    ensures
        refusal(entry, allow_active) is None <==> entry.learned_owned && (allow_active
            || entry.status != Status::Owned),
{
}

/// A PID that was given out again is left alone: nothing is opened unless the snapshot shows
/// the PID with the creation time that the entry was tracked under.
pub proof fn law_reused_pid_is_left_alone(
    entry: EntryModel,
    started: u64,
    log_result: bool,
    processes: Seq<ProcessInfo>,
)
    requires
        entry.identity == model::identity_text(entry.pid, started),
    ensures
        started_for(entry, log_result).after_snapshot(processes).stage == Stage::Opening <==> (
        first_with_pid(processes, entry.pid) matches Some(current) && current.started == started),
{
    if let Some(current) = first_with_pid(processes, entry.pid) {
        lemma_first_has_pid(processes, entry.pid);
        if model::identity_text(current.pid, current.started) == entry.identity {
            model::law_identity_tells_processes_apart(
                current.pid,
                current.started,
                entry.pid,
                started,
            );
        }
    }
}

proof fn lemma_first_has_pid(processes: Seq<ProcessInfo>, pid: u32)
    ensures
        first_with_pid(processes, pid) matches Some(process) ==> process.pid == pid
            && processes.contains(process),
        first_with_pid(processes, pid) is None ==> forall|i: int|
            0 <= i < processes.len() ==> (#[trigger] processes[i]).pid != pid,
    decreases processes.len(),
{
    if processes.len() > 0 {
        if processes[0].pid != pid {
            let rest = processes.drop_first();
            lemma_first_has_pid(rest, pid);
            if let Some(process) = first_with_pid(rest, pid) {
                let k = choose|k: int| 0 <= k < rest.len() && rest[k] == process;
                assert(processes[k + 1] == process);
            } else {
                assert forall|i: int| 0 <= i < processes.len() implies (
                #[trigger] processes[i]).pid != pid by {
                    if i > 0 {
                        assert(rest[i - 1] == processes[i]);
                    }
                }
            }
        }
    }
}

/// A process is killed only through a handle that shows the creation time of the snapshot, so
/// that between the check and the kill the PID cannot become another process's.
pub proof fn law_kill_follows_the_check(termination: TerminationModel, started: Option<u64>)
    requires
        termination.wf(),
        termination.stage == Stage::Opening,
    ensures
        termination.after_opened(started).stage == Stage::Killing <==> started == Some(
            termination.targets[termination.at as int].1,
        ),
        termination.after_opened(started).stage == Stage::Killing ==> termination.after_opened(
            started,
        ).step() == Step::Kill(termination.targets[termination.at as int].0),
{
}

proof fn lemma_creation_times(processes: Seq<ProcessInfo>, pids: Seq<u32>)
    ensures
        forall|target: (u32, u64)| #[trigger]
            with_creation_times(processes, pids).contains(target) <==> pids.contains(target.0) && (
            first_with_pid(processes, target.0) matches Some(process) && process.started
                == target.1),
    decreases pids.len(),
{
    let all = with_creation_times(processes, pids);
    if pids.len() > 0 {
        let shorter = pids.drop_last();
        let before = with_creation_times(processes, shorter);
        lemma_creation_times(processes, shorter);
        assert forall|target: (u32, u64)| #[trigger] all.contains(target) <==> pids.contains(
            target.0,
        ) && (first_with_pid(processes, target.0) matches Some(process) && process.started
            == target.1) by {
            if all.contains(target) {
                let k = choose|k: int| 0 <= k < all.len() && all[k] == target;
                if k < before.len() {
                    assert(before[k] == target);
                    assert(before.contains(target));
                    let m = choose|m: int| 0 <= m < shorter.len() && shorter[m] == target.0;
                    assert(pids[m] == target.0);
                } else {
                    assert(pids[pids.len() - 1] == target.0);
                }
            }
            if pids.contains(target.0) && (first_with_pid(processes, target.0) matches Some(process)
                && process.started == target.1) {
                let m = choose|m: int| 0 <= m < pids.len() && pids[m] == target.0;
                if m < shorter.len() {
                    assert(shorter[m] == target.0);
                    assert(before.contains(target));
                    let k = choose|k: int| 0 <= k < before.len() && before[k] == target;
                    assert(all[k] == target);
                } else {
                    assert(all[all.len() - 1] == target);
                }
            }
        }
    }
}

/// What is ended for a process is exactly the process and all that is below it in the snapshot,
/// each with the creation time that the snapshot has for it, and the process itself comes last.
pub proof fn law_targets_are_the_tree(processes: Seq<ProcessInfo>, root: ProcessInfo)
    requires
        first_with_pid(processes, root.pid) == Some(root),
    ensures
        targets_for(processes, root).last() == (root.pid, root.started),
        forall|target: (u32, u64)| #[trigger]
            targets_for(processes, root).contains(target) <==> (target.0 == root.pid
                || tree::descendants(tree::child_lists(processes), root.pid).contains(target.0))
                && (first_with_pid(processes, target.0) matches Some(process) && process.started
                == target.1),
{
    let below = tree::descendants(tree::child_lists(processes), root.pid);
    let found = with_creation_times(processes, below);
    let all = targets_for(processes, root);
    lemma_creation_times(processes, below);
    assert forall|target: (u32, u64)| #[trigger] all.contains(target) <==> (target.0 == root.pid
        || below.contains(target.0)) && (first_with_pid(processes, target.0) matches Some(process)
        && process.started == target.1) by {
        if all.contains(target) {
            let k = choose|k: int| 0 <= k < all.len() && all[k] == target;
            if k < found.len() {
                assert(found.reverse()[k] == target);
                assert(found[found.len() - 1 - k] == target);
                assert(found.contains(target));
            }
        }
        if below.contains(target.0) && (first_with_pid(processes, target.0) matches Some(process)
            && process.started == target.1) {
            assert(found.contains(target));
            let k = choose|k: int| 0 <= k < found.len() && found[k] == target;
            assert(found.reverse()[found.len() - 1 - k] == target);
            assert(all[found.len() - 1 - k] == target);
        }
        assert(all[found.len() as int] == (root.pid, root.started));
    }
}

/// The targets keep the order of their PIDs.
proof fn lemma_creation_times_keep_order(
    processes: Seq<ProcessInfo>,
    pids: Seq<u32>,
    m: int,
    n: int,
) -> (places: (int, int))
    requires
        0 <= m < n < with_creation_times(processes, pids).len(),
    ensures
        0 <= places.0 < places.1 < pids.len(),
        pids[places.0] == with_creation_times(processes, pids)[m].0,
        pids[places.1] == with_creation_times(processes, pids)[n].0,
    decreases pids.len(),
{
    let shorter = pids.drop_last();
    let before = with_creation_times(processes, shorter);
    if n < before.len() {
        lemma_creation_times_keep_order(processes, shorter, m, n)
    } else {
        let target = before[m];
        lemma_creation_times(processes, shorter);
        assert(before.contains(target));
        let at = choose|at: int| 0 <= at < shorter.len() && shorter[at] == target.0;
        (at, pids.len() - 1)
    }
}

/// A tree is ended from below: whatever is below a target comes before it. This is so where no
/// PID has two parents and no way leads back from below to the process itself.
pub proof fn law_tree_is_ended_from_below(
    processes: Seq<ProcessInfo>,
    root: ProcessInfo,
    j: int,
    k: int,
)
    requires
        tree::one_parent_each(tree::child_lists(processes)),
        tree::no_way_back(tree::child_lists(processes), root.pid),
        0 <= j < targets_for(processes, root).len(),
        0 <= k < targets_for(processes, root).len(),
        j != k,
        tree::reaches(
            tree::child_lists(processes),
            targets_for(processes, root)[k].0,
            targets_for(processes, root)[j].0,
        ),
    ensures
        j < k,
{
    let tree = tree::child_lists(processes);
    let below = tree::descendants(tree, root.pid);
    let found = with_creation_times(processes, below);
    let all = targets_for(processes, root);
    let last = found.len() as int;
    lemma_creation_times(processes, below);
    tree::law_descendants_are_what_is_below(tree, root.pid);
    if k < last && j == last {
        assert(all[k] == found[last - 1 - k]);
        assert(found.contains(all[k]));
        assert(below.contains(all[k].0));
        assert(tree::reaches(tree, all[k].0, root.pid));
    } else if k < last && k < j {
        assert(all[k] == found[last - 1 - k] && all[j] == found[last - 1 - j]);
        let (low, high) = lemma_creation_times_keep_order(
            processes,
            below,
            last - 1 - j,
            last - 1 - k,
        );
        tree::law_below_comes_after(tree, root.pid, high, low);
    }
}

/// What came of one target: it could not be opened, and still existed or not; or it was opened,
/// showed a creation time or none, and, if it was killed, exited or not.
pub enum Reply {
    OpenFailed(bool),
    Opened(Option<u64>, bool),
}

/// The termination after one target.
pub open spec fn after_reply(termination: TerminationModel, reply: Reply) -> TerminationModel {
    match reply {
        Reply::OpenFailed(exists_still) => termination.after_open_failed(exists_still),
        Reply::Opened(started, exited) => {
            let opened = termination.after_opened(started);
            if opened.stage == Stage::Killing {
                opened.after_killed(exited)
            } else {
                opened
            }
        },
    }
}

/// The termination after several targets, the first one first.
pub open spec fn after_replies(
    termination: TerminationModel,
    replies: Seq<Reply>,
) -> TerminationModel
    decreases replies.len(),
{
    if replies.len() == 0 {
        termination
    } else {
        after_reply(after_replies(termination, replies.drop_last()), replies.last())
    }
}

/// The reply means that the target may still run.
pub open spec fn fails(target: (u32, u64), reply: Reply) -> bool {
    match reply {
        Reply::OpenFailed(exists_still) => exists_still,
        Reply::Opened(started, exited) => started != Some(target.1) || !exited,
    }
}

/// The PIDs of the targets that may still run.
pub open spec fn failing(targets: Seq<(u32, u64)>, replies: Seq<Reply>) -> Seq<u32>
    decreases replies.len(),
{
    if replies.len() == 0 {
        Seq::empty()
    } else {
        let before = failing(targets, replies.drop_last());
        let at = replies.len() - 1;
        if fails(targets[at], replies.last()) {
            before.push(targets[at].0)
        } else {
            before
        }
    }
}

proof fn lemma_replies(termination: TerminationModel, replies: Seq<Reply>)
    requires
        termination.stage == Stage::Opening,
        termination.at == 0,
        termination.failed == Seq::<u32>::empty(),
        termination.error is None,
        replies.len() <= termination.targets.len(),
        termination.targets.len() > 0,
    ensures
        ({
            let after = after_replies(termination, replies);
            &&& after.targets == termination.targets
            &&& after.error is None
            &&& after.at == replies.len()
            &&& after.failed == failing(termination.targets, replies)
            &&& after.stage == if replies.len() < termination.targets.len() {
                Stage::Opening
            } else {
                Stage::Done
            }
        }),
    decreases replies.len(),
{
    if replies.len() > 0 {
        lemma_replies(termination, replies.drop_last());
    }
}

/// Once every target has had its reply the outcome stands: success with the number of targets
/// exactly where none of them may still run, and else a message that lists those that may.
pub proof fn law_outcome_follows_the_replies(termination: TerminationModel, replies: Seq<Reply>)
    requires
        termination.stage == Stage::Opening,
        termination.at == 0,
        termination.failed == Seq::<u32>::empty(),
        termination.error is None,
        replies.len() == termination.targets.len(),
        termination.targets.len() > 0,
    ensures
        after_replies(termination, replies).stage == Stage::Done,
        (forall|i: int|
            0 <= i < replies.len() ==> !fails(termination.targets[i], #[trigger] replies[i]))
            ==> after_replies(termination, replies).outcome() == Ok::<nat, Seq<char>>(
            termination.targets.len(),
        ),
        (exists|i: int|
            0 <= i < replies.len() && fails(termination.targets[i], #[trigger] replies[i]))
            ==> after_replies(termination, replies).outcome() == Err::<nat, Seq<char>>(
            failure_message(failing(termination.targets, replies)),
        ),
{
    lemma_replies(termination, replies);
    lemma_failing(termination.targets, replies);
}

proof fn lemma_failing(targets: Seq<(u32, u64)>, replies: Seq<Reply>)
    ensures
        failing(targets, replies).len() == 0 <==> forall|i: int|
            0 <= i < replies.len() ==> !fails(targets[i], #[trigger] replies[i]),
    decreases replies.len(),
{
    if replies.len() > 0 {
        let shorter = replies.drop_last();
        lemma_failing(targets, shorter);
        assert(replies[replies.len() - 1] == replies.last());
        if failing(targets, replies).len() == 0 {
            assert forall|i: int| 0 <= i < replies.len() implies !fails(
                targets[i],
                #[trigger] replies[i],
            ) by {
                if i < shorter.len() {
                    assert(shorter[i] == replies[i]);
                }
            }
        } else if forall|i: int|
            0 <= i < replies.len() ==> !fails(targets[i], #[trigger] replies[i]) {
            assert forall|i: int| 0 <= i < shorter.len() implies !fails(
                targets[i],
                #[trigger] shorter[i],
            ) by {
                assert(shorter[i] == replies[i]);
            }
        }
    }
}

proof fn lemma_inserted(list: Seq<u32>, pid: u32)
    requires
        forall|i: int, j: int| 0 <= i < j < list.len() ==> list[i] < list[j],
    ensures
        forall|i: int, j: int|
            0 <= i < j < inserted(list, pid).len() ==> inserted(list, pid)[i] < inserted(
                list,
                pid,
            )[j],
        forall|other: u32| #[trigger]
            inserted(list, pid).contains(other) <==> list.contains(other) || other == pid,
    decreases list.len(),
{
    let all = inserted(list, pid);
    if list.len() == 0 {
        assert(all[0] == pid);
    } else if pid < list[0] {
        assert forall|other: u32| #[trigger] all.contains(other) <==> list.contains(other) || other
            == pid by {
            assert(all[0] == pid);
            if list.contains(other) {
                let k = choose|k: int| 0 <= k < list.len() && list[k] == other;
                assert(all[k + 1] == other);
            }
        }
    } else if pid == list[0] {
        assert(list.contains(pid));
    } else {
        let rest = list.drop_first();
        let below = inserted(rest, pid);
        lemma_inserted(rest, pid);
        assert(all == seq![list[0]] + below);
        assert forall|other: u32| #[trigger] all.contains(other) <==> list.contains(other) || other
            == pid by {
            if all.contains(other) {
                let k = choose|k: int| 0 <= k < all.len() && all[k] == other;
                if k > 0 {
                    assert(below[k - 1] == other);
                    assert(below.contains(other));
                    if rest.contains(other) {
                        let m = choose|m: int| 0 <= m < rest.len() && rest[m] == other;
                        assert(list[m + 1] == other);
                    }
                } else {
                    assert(list[0] == other);
                }
            }
            if list.contains(other) || other == pid {
                if list.contains(other) {
                    let k = choose|k: int| 0 <= k < list.len() && list[k] == other;
                    if k > 0 {
                        assert(rest[k - 1] == other);
                    } else {
                        assert(all[0] == other);
                    }
                }
                if below.contains(other) {
                    let k = choose|k: int| 0 <= k < below.len() && below[k] == other;
                    assert(all[k + 1] == other);
                }
            }
        }
        assert forall|i: int, j: int| 0 <= i < j < all.len() implies all[i] < all[j] by {
            assert(all[j] == below[j - 1]);
            if i == 0 {
                assert(below.contains(all[j]));
                if all[j] != pid {
                    let k = choose|k: int| 0 <= k < rest.len() && rest[k] == all[j];
                    assert(list[k + 1] == all[j]);
                }
            } else {
                assert(all[i] == below[i - 1]);
            }
        }
    }
}

/// The PIDs that a message lists are in increasing order, none twice, and are those that failed.
pub proof fn law_failed_pids_are_listed_once(pids: Seq<u32>)
    ensures
        forall|i: int, j: int| 0 <= i < j < in_order(pids).len() ==> in_order(pids)[i] < in_order(
            pids,
        )[j],
        forall|pid: u32| #[trigger] in_order(pids).contains(pid) <==> pids.contains(pid),
    decreases pids.len(),
{
    if pids.len() > 0 {
        let shorter = pids.drop_last();
        law_failed_pids_are_listed_once(shorter);
        lemma_inserted(in_order(shorter), pids.last());
        assert forall|pid: u32| #[trigger] in_order(pids).contains(pid) <==> pids.contains(
            pid,
        ) by {
            if pids.contains(pid) {
                let k = choose|k: int| 0 <= k < pids.len() && pids[k] == pid;
                if k < shorter.len() {
                    assert(shorter[k] == pid);
                }
            }
            if shorter.contains(pid) {
                let k = choose|k: int| 0 <= k < shorter.len() && shorter[k] == pid;
                assert(pids[k] == pid);
            }
            assert(pids[pids.len() - 1] == pids.last());
        }
    }
}

/// The guardian ends by itself exactly the entries that it may: none at all unless that is
/// switched on, and then in the order of the entries.
pub proof fn law_cleanup_picks_what_it_may(config: Config, entries: Seq<EntryModel>)
    requires
        entries.len() <= usize::MAX,
    ensures
        !config.action_terminate ==> cleanup_positions(config, entries).len() == 0,
        forall|k: int|
            0 <= k < cleanup_positions(config, entries).len() ==> {
                &&& (#[trigger] cleanup_positions(config, entries)[k]) < entries.len()
                &&& may_clean_up(config, entries[cleanup_positions(config, entries)[k] as int])
            },
        forall|j: int, k: int|
            0 <= j < k < cleanup_positions(config, entries).len() ==> cleanup_positions(
                config,
                entries,
            )[j] < cleanup_positions(config, entries)[k],
        forall|i: int|
            0 <= i < entries.len() && may_clean_up(config, #[trigger] entries[i])
                ==> cleanup_positions(config, entries).contains(i as usize),
    decreases entries.len(),
{
    let all = cleanup_positions(config, entries);
    if entries.len() > 0 {
        let shorter = entries.drop_last();
        let before = cleanup_positions(config, shorter);
        law_cleanup_picks_what_it_may(config, shorter);
        assert forall|k: int| 0 <= k < all.len() implies {
            &&& (#[trigger] all[k]) < entries.len()
            &&& may_clean_up(config, entries[all[k] as int])
        } by {
            if k < before.len() {
                assert(all[k] == before[k]);
                assert(shorter[before[k] as int] == entries[before[k] as int]);
            }
        }
        assert forall|j: int, k: int| 0 <= j < k < all.len() implies all[j] < all[k] by {
            assert(all[j] == before[j]);
            if k < before.len() {
                assert(all[k] == before[k]);
            }
        }
        assert forall|i: int| 0 <= i < entries.len() && may_clean_up(
            config,
            #[trigger] entries[i],
        ) implies all.contains(i as usize) by {
            if i < shorter.len() {
                assert(shorter[i] == entries[i]);
                let k = choose|k: int| 0 <= k < before.len() && before[k] == i as usize;
                assert(all[k] == i as usize);
            } else {
                assert(all[before.len() as int] == i as usize);
            }
        }
    }
}

/// What the guardian ends by itself it need not be allowed to end as active: it is never
/// refused.
pub proof fn law_cleanup_is_never_refused(config: Config, entry: EntryModel)
    requires
        may_clean_up(config, entry),
    ensures
        refusal(entry, false) is None,
{
}

/// Unless idle helpers of a running host are given free, the guardian by itself ends only
/// processes whose host is gone, and has been for the grace period.
pub proof fn law_cleanup_waits_for_the_grace_period(
    config: Config,
    now: u64,
    processes: Seq<ProcessInfo>,
    old: Seq<EntryModel>,
    process: ProcessInfo,
)
    requires
        may_clean_up(config, scan::entry_for(config, now, processes, old, process)),
        !config.terminate_owned_idle_browser,
        !config.terminate_owned_idle_tool,
    ensures
        scan::owner_of(processes, process) is None,
        scan::elapsed(
            now,
            scan::entry_for(config, now, processes, old, process).orphan_since,
        ) >= scan::seconds(config.grace_minutes),
{
}

/// Each selected entry is either ended as the root of a tree or left out because a selected
/// process is above it, and not both; so no two roots are one above the other.
pub proof fn law_roots_do_not_overlap(
    known: Map<u32, ProcessInfo>,
    entries: Seq<EntryModel>,
    count: nat,
)
    requires
        count <= entries.len(),
        entries.len() <= usize::MAX,
    ensures
        forall|i: int|
            0 <= i < count ==> (root_positions(known, entries, count).contains(#[trigger] (
            i as usize)) <==> !is_below_selected(known, pids_of(entries), entries[i].pid)),
        forall|k: int|
            0 <= k < root_positions(known, entries, count).len() ==> (#[trigger] root_positions(
                known,
                entries,
                count,
            )[k]) < count,
    decreases count,
{
    if count > 0 {
        let before = root_positions(known, entries, (count - 1) as nat);
        let all = root_positions(known, entries, count);
        law_roots_do_not_overlap(known, entries, (count - 1) as nat);
        assert forall|i: int| 0 <= i < count implies (all.contains(#[trigger] (i as usize))
            <==> !is_below_selected(known, pids_of(entries), entries[i].pid)) by {
            if i < count - 1 {
                if before.contains(i as usize) {
                    let k = choose|k: int| 0 <= k < before.len() && before[k] == i as usize;
                    assert(all[k] == i as usize);
                }
                if all.contains(i as usize) {
                    let k = choose|k: int| 0 <= k < all.len() && all[k] == i as usize;
                    assert(k < before.len());
                    assert(before[k] == i as usize);
                }
            } else {
                if all != before {
                    assert(all[before.len() as int] == i as usize);
                } else if all.contains(i as usize) {
                    let k = choose|k: int| 0 <= k < all.len() && all[k] == i as usize;
                    assert(before[k] < count - 1);
                }
            }
        }
        assert forall|k: int| 0 <= k < all.len() implies (#[trigger] all[k]) < count by {
            if k < before.len() {
                assert(all[k] == before[k]);
            }
        }
    }
}

/// No root of a batch is below another.
pub proof fn law_no_root_is_below_another(
    known: Map<u32, ProcessInfo>,
    entries: Seq<EntryModel>,
    j: int,
    k: int,
)
    requires
        entries.len() <= usize::MAX,
        0 <= j < root_positions(known, entries, entries.len()).len(),
        0 <= k < root_positions(known, entries, entries.len()).len(),
    ensures
        ({
            let roots = root_positions(known, entries, entries.len());
            let lower = entries[roots[j] as int].pid;
            let upper = entries[roots[k] as int].pid;
            known.contains_key(lower) ==> !tree::ancestors_of(known, known[lower]).contains(upper)
        }),
{
    let roots = root_positions(known, entries, entries.len());
    law_roots_do_not_overlap(known, entries, entries.len());
    let pids = pids_of(entries);
    let lower = entries[roots[j] as int].pid;
    let upper = entries[roots[k] as int].pid;
    assert(roots.contains(roots[j]) && roots[j] < entries.len() && roots[k] < entries.len());
    assert(roots.contains((roots[j] as int) as usize));
    assert(!is_below_selected(known, pids, lower));
    assert(pids[roots[k] as int] == upper);
    if known.contains_key(lower) && tree::ancestors_of(known, known[lower]).contains(upper) {
        let chain = tree::ancestors_of(known, known[lower]);
        let n = choose|n: int| 0 <= n < chain.len() && chain[n] == upper;
        assert(pids.contains(chain[n]));
    }
}

/// `upper` is selected and among the ancestors of `lower`, which is selected too.
pub open spec fn is_selected_above(
    known: Map<u32, ProcessInfo>,
    selected: Seq<u32>,
    lower: u32,
    upper: u32,
) -> bool {
    &&& selected.contains(lower)
    &&& selected.contains(upper)
    &&& known.contains_key(lower)
    &&& tree::ancestors_of(known, known[lower]).contains(upper)
}

/// No selected process is above another one, or itself, and below it as well. Where no PID
/// occurs twice, parent PIDs run in a circle only among processes with one creation time.
pub open spec fn no_circle(processes: Seq<ProcessInfo>, selected: Seq<u32>) -> bool {
    forall|lower: u32, upper: u32| #[trigger]
        is_selected_above(tree::by_pid(processes), selected, lower, upper) ==> !tree::reaches(
            tree::child_lists(processes),
            lower,
            upper,
        )
}

/// The selected processes from which a process can be reached.
pub open spec fn selected_above(processes: Seq<ProcessInfo>, selected: Seq<u32>, pid: u32) -> Set<u32> {
    selected.to_set().filter(
        |upper: u32| tree::reaches(tree::child_lists(processes), upper, pid),
    )
}

/// From the ancestors of a process fewer selected processes are above than from itself.
proof fn lemma_fewer_above(processes: Seq<ProcessInfo>, selected: Seq<u32>, lower: u32, upper: u32)
    requires
        no_circle(processes, selected),
        is_selected_above(tree::by_pid(processes), selected, lower, upper),
        tree::reaches(tree::child_lists(processes), upper, lower),
    ensures
        selected_above(processes, selected, upper).len() < selected_above(
            processes,
            selected,
            lower,
        ).len(),
{
    let tree = tree::child_lists(processes);
    let above = selected_above(processes, selected, upper);
    let below = selected_above(processes, selected, lower);
    tree::lemma_reaches_itself(tree, lower);
    assert(below.contains(lower));
    assert(!above.contains(lower));
    assert forall|pid: u32| above.contains(pid) implies below.contains(pid) by {
        tree::law_below_can_be_chained(tree, pid, upper, lower);
    }
    vstd::seq_lib::seq_to_set_is_finite(selected);
    assert(above.subset_of(below.remove(lower)));
    vstd::set_lib::lemma_len_subset(above, below.remove(lower));
}

/// An entry that is left out because a selected process is above it is below a root of the
/// batch, so it is ended with that root's tree. Processes in a circle have no root among them.
pub proof fn law_left_out_entries_are_covered(
    processes: Seq<ProcessInfo>,
    entries: Seq<EntryModel>,
    i: int,
)
    requires
        0 <= i < entries.len(),
        is_below_selected(tree::by_pid(processes), pids_of(entries), entries[i].pid),
        no_circle(processes, pids_of(entries)),
    ensures
        exists|k: int|
            0 <= k < entries.len() && !is_below_selected(
                tree::by_pid(processes),
                pids_of(entries),
                (#[trigger] entries[k]).pid,
            ) && tree::descendants(tree::child_lists(processes), entries[k].pid).contains(
                entries[i].pid,
            ),
    decreases selected_above(processes, pids_of(entries), entries[i].pid).len(),
{
    let known = tree::by_pid(processes);
    let tree = tree::child_lists(processes);
    let pids = pids_of(entries);
    let pid = entries[i].pid;
    let chain = tree::ancestors_of(known, known[pid]);
    let at = choose|at: int| 0 <= at < chain.len() && pids.contains(#[trigger] chain[at]);
    let upper = chain[at];
    let k = choose|k: int| 0 <= k < pids.len() && pids[k] == upper;
    assert(entries[k].pid == upper);
    assert(pids[i] == pid);
    assert(is_selected_above(known, pids, pid, upper));
    tree::lemma_by_pid(processes, pid);
    tree::law_process_is_below_its_ancestors(processes, known[pid], at);
    if is_below_selected(known, pids, upper) {
        lemma_fewer_above(processes, pids, pid, upper);
        law_left_out_entries_are_covered(processes, entries, k);
        let m = choose|m: int|
            0 <= m < entries.len() && !is_below_selected(known, pids, (#[trigger] entries[m]).pid)
                && tree::descendants(tree, entries[m].pid).contains(upper);
        let root = entries[m].pid;
        tree::law_descendants_are_what_is_below(tree, root);
        tree::law_below_can_be_chained(tree, root, upper, pid);
        assert(tree::descendants(tree, root).contains(pid));
    } else {
        tree::lemma_reaches_itself(tree, pid);
        tree::law_descendants_are_what_is_below(tree, upper);
        assert(tree::descendants(tree, entries[k].pid).contains(pid));
    }
}

/// The outcomes that are failures, in their order.
pub open spec fn failed_outcomes(outcomes: Seq<Result<usize, String>>) -> Seq<Result<usize, String>> {
    outcomes.filter(|outcome: Result<usize, String>| outcome is Err)
}

/// Every tree that could not be ended is reported, and no other.
pub proof fn law_every_failure_is_reported(
    entries: Seq<EntryModel>,
    positions: Seq<usize>,
    outcomes: Seq<Result<usize, String>>,
)
    ensures
        failures_in(entries, positions, outcomes).len() == failed_outcomes(outcomes).len(),
        forall|k: int|
            0 <= k < outcomes.len() && (#[trigger] outcomes[k]) is Err ==> failures_in(
                entries,
                positions,
                outcomes,
            ).contains((entries[positions[k] as int].pid, (outcomes[k]->Err_0)@)),
    decreases outcomes.len(),
{
    reveal(Seq::filter);
    if outcomes.len() > 0 {
        let shorter = outcomes.drop_last();
        let before = failures_in(entries, positions, shorter);
        let all = failures_in(entries, positions, outcomes);
        law_every_failure_is_reported(entries, positions, shorter);
        assert forall|k: int| 0 <= k < outcomes.len() && (
        #[trigger] outcomes[k]) is Err implies all.contains(
            (entries[positions[k] as int].pid, (outcomes[k]->Err_0)@),
        ) by {
            let wanted = (entries[positions[k] as int].pid, (outcomes[k]->Err_0)@);
            if k < shorter.len() {
                assert(shorter[k] == outcomes[k]);
                assert(before.contains(wanted));
                let m = choose|m: int| 0 <= m < before.len() && before[m] == wanted;
                assert(all[m] == wanted);
            } else {
                assert(all[all.len() - 1] == wanted);
            }
        }
    }
}

/// The number of ended processes is additive: one success adds its count, a failure adds
/// nothing, and two lists of outcomes together end as many as each of them does.
pub proof fn law_ended_processes_add_up(
    a: Seq<Result<usize, String>>,
    b: Seq<Result<usize, String>>,
    count: usize,
    error: String,
)
    ensures
        ended_in_all(a + b) == ended_in_all(a) + ended_in_all(b),
        ended_in_all(seq![Ok::<usize, String>(count)]) == count,
        ended_in_all(seq![Err::<usize, String>(error)]) == 0,
        ended_in_all(Seq::empty()) == 0,
    decreases b.len(),
{
    reveal_with_fuel(ended_in_all, 2);
    assert(seq![Ok::<usize, String>(count)].drop_last() =~= Seq::empty());
    assert(seq![Err::<usize, String>(error)].drop_last() =~= Seq::empty());
    if b.len() == 0 {
        assert(a + b =~= a);
    } else {
        assert((a + b).drop_last() =~= a + b.drop_last());
        law_ended_processes_add_up(a, b.drop_last(), count, error);
    }
}

/// The failures of two lists of outcomes, one after the other, are those of the first followed
/// by those of the second.
pub proof fn law_failures_keep_their_order(
    entries: Seq<EntryModel>,
    positions: Seq<usize>,
    a: Seq<Result<usize, String>>,
    b: Seq<Result<usize, String>>,
    error: String,
)
    requires
        a.len() + b.len() <= positions.len(),
    ensures
        failures_in(entries, positions, a + b) == failures_in(entries, positions, a) + failures_in(
            entries,
            positions.skip(a.len() as int),
            b,
        ),
        positions.len() > 0 ==> failures_in(
            entries,
            positions,
            seq![Err::<usize, String>(error)],
        ) == seq![(entries[positions[0] as int].pid, error@)],
    decreases b.len(),
{
    reveal_with_fuel(failures_in, 2);
    let single = seq![Err::<usize, String>(error)];
    assert(single.drop_last() =~= Seq::empty());
    if positions.len() > 0 {
        assert(failures_in(entries, positions, single) =~= seq![
            (entries[positions[0] as int].pid, error@),
        ]);
    }
    if b.len() == 0 {
        assert(a + b =~= a);
        assert(failures_in(entries, positions, a) + failures_in(
            entries,
            positions.skip(a.len() as int),
            b,
        ) =~= failures_in(entries, positions, a));
    } else {
        let rest = positions.skip(a.len() as int);
        assert((a + b).drop_last() =~= a + b.drop_last());
        law_failures_keep_their_order(entries, positions, a, b.drop_last(), error);
        assert(rest[b.len() - 1] == positions[(a + b).len() - 1]);
        assert(failures_in(entries, positions, a + b) =~= failures_in(entries, positions, a)
            + failures_in(entries, rest, b));
    }
}

/// Each permission governs its own status alone. With `action=terminate` a candidate that was
/// owned is always picked; an idle browser exactly with the permission for idle browsers, an idle
/// tool server exactly with the one for idle tool servers; nothing else ever is. Without
/// `action=terminate`, and without ownership, nothing is picked.
pub proof fn law_permissions_govern_their_own_status(
    config: Config,
    entries: Seq<EntryModel>,
    i: int,
)
    requires
        entries.len() <= usize::MAX,
        0 <= i < entries.len(),
    ensures
        ({
            let picked = cleanup_positions(config, entries).contains(i as usize);
            let free = config.action_terminate && entries[i].learned_owned;
            &&& !free ==> !picked
            &&& free ==> match entries[i].status {
                Status::Candidate => picked,
                Status::OwnedIdleBrowser => picked == config.terminate_owned_idle_browser,
                Status::OwnedIdleTool => picked == config.terminate_owned_idle_tool,
                Status::GracePeriod => !picked,
                Status::SuspectOnly => !picked,
                Status::Owned => !picked,
            }
        }),
{
    lemma_picked(config, entries, i);
}

/// A picked entry is one that the guardian may end.
proof fn lemma_picked(config: Config, entries: Seq<EntryModel>, i: int)
    requires
        entries.len() <= usize::MAX,
        0 <= i < entries.len(),
    ensures
        cleanup_positions(config, entries).contains(i as usize) <==> may_clean_up(
            config,
            entries[i],
        ),
        forall|k: int|
            0 <= k < cleanup_positions(config, entries).len() ==> (#[trigger] cleanup_positions(
                config,
                entries,
            )[k]) < entries.len(),
    decreases entries.len(),
{
    let shorter = entries.drop_last();
    let before = cleanup_positions(config, shorter);
    let all = cleanup_positions(config, entries);
    let last = entries.len() - 1;
    if shorter.len() > 0 {
        lemma_picked(config, shorter, if i < last { i } else { 0 });
    }
    if may_clean_up(config, entries.last()) {
        assert(all[before.len() as int] == last as usize);
    }
    if i < last {
        if before.contains(i as usize) {
            let k = choose|k: int| 0 <= k < before.len() && before[k] == i as usize;
            assert(all[k] == i as usize);
        }
        if all.contains(i as usize) {
            let k = choose|k: int| 0 <= k < all.len() && all[k] == i as usize;
            assert(before[k] == i as usize);
        }
        assert(shorter[i] == entries[i]);
    } else if all.contains(i as usize) && !may_clean_up(config, entries.last()) {
        let k = choose|k: int| 0 <= k < all.len() && all[k] == i as usize;
        assert(before[k] < shorter.len());
    }
    assert forall|k: int| 0 <= k < all.len() implies (#[trigger] all[k]) < entries.len() by {
        if k < before.len() {
            assert(all[k] == before[k]);
        }
    }
}

/// What is picked keeps the order of the entries, and nothing is picked twice.
pub proof fn law_cleanup_keeps_the_order(config: Config, entries: Seq<EntryModel>, j: int, k: int)
    requires
        entries.len() <= usize::MAX,
        0 <= j < k < cleanup_positions(config, entries).len(),
    ensures
        cleanup_positions(config, entries)[j] < cleanup_positions(config, entries)[k],
    decreases entries.len(),
{
    let before = cleanup_positions(config, entries.drop_last());
    if k < before.len() {
        law_cleanup_keeps_the_order(config, entries.drop_last(), j, k);
    } else {
        lemma_picked(config, entries.drop_last(), 0);
        assert(before[j] < entries.len() - 1);
    }
}

/// A refusal says why: want of an owner comes first, then want of permission.
pub proof fn law_refusal_says_why(entry: EntryModel, allow_active: bool)
    ensures
        !entry.learned_owned ==> refusal(entry, allow_active) == Some(
            "未确认归属 ChatGPT/Codex，拒绝结束"@,
        ),
        entry.learned_owned && entry.status == Status::Owned && !allow_active ==> refusal(
            entry,
            allow_active,
        ) == Some("进程仍处于活动宿主树中"@),
        entry.learned_owned && (entry.status != Status::Owned || allow_active) ==> refusal(
            entry,
            allow_active,
        ) is None,
{
}

/// An entry is a root of the batch exactly where no ancestor of its process is selected; a
/// process that is not in the snapshot has no ancestors.
pub proof fn law_roots_have_no_selected_ancestor(
    known: Map<u32, ProcessInfo>,
    entries: Seq<EntryModel>,
    i: int,
)
    requires
        entries.len() <= usize::MAX,
        0 <= i < entries.len(),
    ensures
        root_positions(known, entries, entries.len()).contains(i as usize) <==> !(
        known.contains_key(entries[i].pid) && exists|k: int|
            0 <= k < entries.len() && tree::ancestors_of(known, known[entries[i].pid]).contains(
                (#[trigger] entries[k]).pid,
            )),
{
    law_roots_do_not_overlap(known, entries, entries.len());
    let pids = pids_of(entries);
    let pid = entries[i].pid;
    let chain = tree::ancestors_of(known, known[pid]);
    assert(root_positions(known, entries, entries.len()).contains(i as usize)
        <==> !is_below_selected(known, pids, pid));
    if is_below_selected(known, pids, pid) {
        let n = choose|n: int| 0 <= n < chain.len() && pids.contains(#[trigger] chain[n]);
        let k = choose|k: int| 0 <= k < pids.len() && pids[k] == chain[n];
        assert(entries[k].pid == chain[n]);
        assert(chain.contains(entries[k].pid));
    }
    if known.contains_key(pid) && exists|k: int|
        0 <= k < entries.len() && chain.contains((#[trigger] entries[k]).pid) {
        let k = choose|k: int| 0 <= k < entries.len() && chain.contains((#[trigger] entries[k]).pid);
        let n = choose|n: int| 0 <= n < chain.len() && chain[n] == entries[k].pid;
        assert(pids[k] == chain[n]);
        assert(pids.contains(chain[n]));
    }
}

/// What a snapshot makes of a termination: a process that is gone, or whose PID now belongs to
/// another, ends it with a message; the same process has its tree ended, beginning with the first
/// target.
pub proof fn law_snapshot_decides(
    termination: TerminationModel,
    processes: Seq<ProcessInfo>,
    k: int,
)
    ensures
        ({
            let after = termination.after_snapshot(processes);
            &&& (forall|j: int|
                0 <= j < processes.len() ==> (#[trigger] processes[j]).pid != termination.pid)
                ==> after.stage == Stage::Done && after.error == Some("进程已经退出"@)
            &&& 0 <= k < processes.len() && processes[k].pid == termination.pid && (forall|j: int|
                0 <= j < k ==> (#[trigger] processes[j]).pid != termination.pid) ==> {
                let same = model::identity_text(processes[k].pid, processes[k].started)
                    == termination.identity;
                &&& !same ==> after.stage == Stage::Done && after.error == Some(
                    "PID 已复用，身份校验失败"@,
                )
                &&& same ==> after.stage == Stage::Opening && after.at == 0 && after.failed.len()
                    == 0 && after.error == termination.error && after.targets == targets_for(
                    processes,
                    processes[k],
                )
            }
            &&& after.pid == termination.pid && after.identity == termination.identity
                && after.log_result == termination.log_result
        }),
{
    lemma_first_has_pid(processes, termination.pid);
    if 0 <= k < processes.len() && processes[k].pid == termination.pid && (forall|j: int|
        0 <= j < k ==> (#[trigger] processes[j]).pid != termination.pid) {
        lemma_first_at(processes, termination.pid, k);
    }
}

proof fn lemma_first_at(processes: Seq<ProcessInfo>, pid: u32, k: int)
    requires
        0 <= k < processes.len(),
        processes[k].pid == pid,
        forall|j: int| 0 <= j < k ==> (#[trigger] processes[j]).pid != pid,
    ensures
        first_with_pid(processes, pid) == Some(processes[k]),
    decreases processes.len(),
{
    if k > 0 {
        let rest = processes.drop_first();
        assert(processes[0].pid != pid);
        assert forall|j: int| 0 <= j < k - 1 implies (#[trigger] rest[j]).pid != pid by {
            assert(rest[j] == processes[j + 1]);
        }
        assert(rest[k - 1] == processes[k]);
        lemma_first_at(rest, pid, k - 1);
    }
}

/// One target after the other: a target that could not be opened counts as failed only where it
/// still exists, one with another creation time always, and one that was killed where its end was
/// not confirmed. Each reply moves on to the next target, and the last one finishes.
pub proof fn law_each_target_has_its_turn(
    termination: TerminationModel,
    exists_still: bool,
    started: Option<u64>,
    exited: bool,
)
    requires
        termination.at < termination.targets.len(),
    ensures
        ({
            let (pid, time) = termination.targets[termination.at as int];
            let closed = termination.after_open_failed(exists_still);
            let opened = termination.after_opened(started);
            let killed = termination.after_killed(exited);
            let next = if termination.at + 1 < termination.targets.len() {
                Stage::Opening
            } else {
                Stage::Done
            };
            &&& closed.at == termination.at + 1 && closed.stage == next
            &&& closed.failed == if exists_still {
                termination.failed.push(pid)
            } else {
                termination.failed
            }
            &&& started == Some(time) ==> opened.at == termination.at && opened.failed
                == termination.failed && opened.stage == Stage::Killing
            &&& started != Some(time) ==> opened.at == termination.at + 1 && opened.failed
                == termination.failed.push(pid) && opened.stage == next
            &&& killed.at == termination.at + 1 && killed.stage == next
            &&& killed.failed == if exited {
                termination.failed
            } else {
                termination.failed.push(pid)
            }
            &&& closed.targets == termination.targets && opened.targets == termination.targets
                && killed.targets == termination.targets
        }),
{
}

/// An end is confirmed where it was requested and the wait saw the handle signalled.
pub proof fn law_end_is_confirmed_by_the_wait(requested: bool, wait: u32)
    ensures
        exit_confirmed(requested, wait) <==> requested && wait == 0,
{
}

/// What is logged of a termination: nothing where no log was asked for or nothing was opened, and
/// else the PID with the number of ended processes, or with those that may still run.
pub proof fn law_log_says_what_was_ended(termination: TerminationModel)
    ensures
        termination.log_line() is Some <==> termination.log_result && termination.error is None,
        termination.log_result && termination.error is None && termination.failed.len() == 0
            ==> termination.log_line() == Some(
            "terminated pid="@ + decimal::decimal(termination.pid as nat) + " count="@
                + decimal::decimal(termination.targets.len()),
        ),
        termination.log_result && termination.error is None && termination.failed.len() > 0 ==> (
        termination.outcome() matches Err(message) && termination.log_line() == Some(
            "terminate_failed pid="@ + decimal::decimal(termination.pid as nat) + " "@ + message,
        )),
        termination.error matches Some(error) ==> termination.outcome() == Err::<nat, Seq<char>>(
            error,
        ),
        termination.error is None && termination.failed.len() == 0 ==> termination.outcome() == Ok::<
            nat,
            Seq<char>,
        >(termination.targets.len()),
{
}

/// A termination starts with a snapshot, for the process and the identity of its entry.
pub proof fn law_termination_starts_with_a_snapshot(entry: EntryModel, log_result: bool)
    ensures
        ({
            let start = started_for(entry, log_result);
            &&& start.step() == Step::TakeSnapshot
            &&& start.pid == entry.pid
            &&& start.identity == entry.identity
            &&& start.log_result == log_result
            &&& start.failed.len() == 0
            &&& start.error is None
            &&& start.wf()
        }),
{
}

/// The line about a failed cleanup names the PID and the error, on one line.
pub proof fn law_cleanup_failures_are_told(failures: Seq<(u32, Seq<char>)>, k: int)
    requires
        0 <= k < failures.len(),
    ensures
        failure_texts(failures).len() == failures.len(),
        failure_texts(failures)[k] == "pid="@ + decimal::decimal(failures[k].0 as nat) + " error="@
            + text::cleaned(failures[k].1),
{
}

/// What is done next: first a snapshot; then each target is opened under its own PID, and killed
/// only while it is open; at the end nothing.
pub proof fn law_steps_have_their_order(termination: TerminationModel)
    ensures
        termination.stage == Stage::Snapshot <==> termination.step() is TakeSnapshot,
        termination.stage == Stage::Done <==> termination.step() is Finish,
        termination.stage == Stage::Opening ==> termination.step() == Step::Open(
            termination.targets[termination.at as int].0,
        ),
        termination.stage == Stage::Killing ==> termination.step() == Step::Kill(
            termination.targets[termination.at as int].0,
        ),
{
}

/// The message about what may still run names every PID of it.
pub proof fn law_failure_names_each_pid(failed: Seq<u32>, k: int)
    requires
        0 <= k < failed.len(),
    ensures
        text::has(failure_message(failed), decimal::decimal(failed[k] as nat)),
{
    law_failed_pids_are_listed_once(failed);
    let sorted = in_order(failed);
    assert(failed.contains(failed[k]));
    assert(sorted.contains(failed[k]));
    let i = choose|i: int| 0 <= i < sorted.len() && sorted[i] == failed[k];
    let parts = numerals(sorted);
    assert(parts[i] == decimal::decimal(failed[k] as nat));
    let (front, back) = text::lemma_part_of_joined(parts, ", "@, i);
    let head = "结束失败，仍存活 PID: ["@;
    let whole = failure_message(failed);
    assert(whole =~= (head + front) + parts[i] + (back + "]"@));
    text::law_holding_is_standing_between(whole, parts[i]);
}

} // verus!
