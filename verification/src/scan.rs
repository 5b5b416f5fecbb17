//! One scan: from a snapshot and the entries of the scan before to the entries of this one.
use std::collections::{HashMap, HashSet};

use vstd::prelude::*;

use crate::classify::{self, classify, is_host};
use crate::config::{self, Config};
use crate::state;
use crate::decimal::{self, append_decimal};
use crate::guardian::Guardian;
use crate::model::{self, Category, Entry, EntryModel, ProcessInfo, Status, identity};
use crate::text::{self, clean_field, same_text};
use crate::tree::{
    self, ancestors, build_children, descendant_ids, index_by_pid, process_tree_cpu_ticks,
    relation_path,
};

verus! {

broadcast use vstd::std_specs::hash::group_hash_axioms;

/// The change in CPU time, in units of 100 ns, that counts as activity.
pub const ACTIVITY_TICKS: u64 = 1_000_000;

// ---------------------------------------------------------------------------------------------
// The standing of one process
// ---------------------------------------------------------------------------------------------
/// How a process stands, in one scan.
#[derive(Clone, Copy, Debug, PartialEq, Eq, Structural)]
pub struct Standing {
    pub learned_owned: bool,
    pub first_seen: u64,
    pub last_activity: u64,
    pub orphan_since: u64,
    pub status: Status,
}

/// A number of minutes in seconds, capped at the largest number of 64 bits.
pub open spec fn seconds(minutes: u64) -> u64 {
    if minutes * 60 > u64::MAX {
        u64::MAX
    } else {
        (minutes * 60) as u64
    }
}

/// The seconds from `earlier` to `now`; none where `earlier` is later.
pub open spec fn elapsed(now: u64, earlier: u64) -> u64 {
    if now > earlier {
        (now - earlier) as u64
    } else {
        0
    }
}

/// The distance between two counts of CPU time.
pub open spec fn distance(a: u64, b: u64) -> u64 {
    if a > b {
        (a - b) as u64
    } else {
        (b - a) as u64
    }
}

/// Idleness is watched for this category.
pub open spec fn can_idle(category: Category) -> bool {
    category == Category::Browser || category == Category::ToolServer
}

/// The process belongs to a host: it has one now, or was seen with one before.
pub open spec fn learned(has_owner: bool, old: Option<EntryModel>) -> bool {
    has_owner || (old matches Some(entry) && entry.learned_owned)
}

/// When the process was last active. A process whose idleness is watched is active where its
/// CPU time has moved, and when it is first seen.
pub open spec fn activity(
    now: u64,
    category: Category,
    cpu_ticks: u64,
    old: Option<EntryModel>,
) -> u64 {
    match old {
        Some(entry) => if can_idle(category) && distance(cpu_ticks, entry.cpu_ticks)
            >= ACTIVITY_TICKS {
            now
        } else {
            entry.last_activity
        },
        None => now,
    }
}

/// Since when the process has been without its host; zero while it has one, and where it is
/// not known to have had one.
pub open spec fn orphaned(now: u64, has_owner: bool, old: Option<EntryModel>) -> u64 {
    if has_owner || !learned(has_owner, old) {
        0
    } else {
        match old {
            Some(entry) => if entry.orphan_since != 0 {
                entry.orphan_since
            } else {
                now
            },
            None => now,
        }
    }
}

/// The status of a process whose host runs.
pub open spec fn owned_status(
    config: Config,
    now: u64,
    category: Category,
    last_activity: u64,
) -> Status {
    let idle = elapsed(now, last_activity);
    if category == Category::Browser && idle >= seconds(config.owned_browser_idle_minutes) {
        Status::OwnedIdleBrowser
    } else if category == Category::ToolServer && idle >= seconds(config.owned_tool_idle_minutes) {
        Status::OwnedIdleTool
    } else {
        Status::Owned
    }
}

/// How a process stands.
pub open spec fn standing_of(
    config: Config,
    now: u64,
    category: Category,
    has_owner: bool,
    cpu_ticks: u64,
    old: Option<EntryModel>,
) -> Standing {
    let last_activity = activity(now, category, cpu_ticks, old);
    let orphan_since = orphaned(now, has_owner, old);
    Standing {
        learned_owned: learned(has_owner, old),
        first_seen: match old {
            Some(entry) => entry.first_seen,
            None => now,
        },
        last_activity,
        orphan_since,
        status: if !learned(has_owner, old) {
            Status::SuspectOnly
        } else if has_owner {
            owned_status(config, now, category, last_activity)
        } else if elapsed(now, orphan_since) >= seconds(config.grace_minutes) {
            Status::Candidate
        } else {
            Status::GracePeriod
        },
    }
}

/// What an entry says, if there is one.
pub open spec fn entry_model(entry: Option<&Entry>) -> Option<EntryModel> {
    match entry {
        Some(entry) => Some(entry@),
        None => None,
    }
}

/// A number of minutes in seconds.
fn to_seconds(minutes: u64) -> (result: u64)
    ensures
        result == seconds(minutes),
{
    match minutes.checked_mul(60) {
        Some(result) => result,
        None => u64::MAX,
    }
}

/// How a process stands.
pub fn standing(
    config: &Config,
    now: u64,
    category: Category,
    has_owner: bool,
    cpu_ticks: u64,
    old: Option<&Entry>,
) -> (result: Standing)
    ensures
        result == standing_of(*config, now, category, has_owner, cpu_ticks, entry_model(old)),
{
    let watched = category == Category::Browser || category == Category::ToolServer;
    let (was_learned, first_seen, last_activity, was_orphan_since) = match old {
        Some(entry) => {
            let moved: u64 = if cpu_ticks > entry.cpu_ticks {
                cpu_ticks - entry.cpu_ticks
            } else {
                entry.cpu_ticks - cpu_ticks
            };
            let active = watched && moved >= ACTIVITY_TICKS;
            (
                entry.learned_owned,
                entry.first_seen,
                if active { now } else { entry.last_activity },
                entry.orphan_since,
            )
        },
        None => (false, now, now, 0u64),
    };
    let learned_owned = has_owner || was_learned;
    let mut orphan_since: u64 = 0;
    let status = if !learned_owned {
        Status::SuspectOnly
    } else if has_owner {
        let idle: u64 = now.saturating_sub(last_activity);
        if category == Category::Browser && idle >= to_seconds(config.owned_browser_idle_minutes) {
            Status::OwnedIdleBrowser
        } else if category == Category::ToolServer && idle >= to_seconds(
            config.owned_tool_idle_minutes,
        ) {
            Status::OwnedIdleTool
        } else {
            Status::Owned
        }
    } else {
        orphan_since = if was_orphan_since == 0 { now } else { was_orphan_since };
        if now.saturating_sub(orphan_since) >= to_seconds(config.grace_minutes) {
            Status::Candidate
        } else {
            Status::GracePeriod
        }
    };
    Standing { learned_owned, first_seen, last_activity, orphan_since, status }
}

// ---------------------------------------------------------------------------------------------
// One scan
// ---------------------------------------------------------------------------------------------
/// The last of the old entries with the given identity.
pub open spec fn old_entry(old: Seq<EntryModel>, identity: Seq<char>) -> Option<EntryModel>
    decreases old.len(),
{
    if old.len() == 0 {
        None
    } else if old.last().identity == identity {
        Some(old.last())
    } else {
        old_entry(old.drop_last(), identity)
    }
}

/// The PIDs of the hosts.
pub open spec fn host_pids(processes: Seq<ProcessInfo>) -> Set<u32>
    decreases processes.len(),
{
    if processes.len() == 0 {
        Set::empty()
    } else if classify::hosts(processes.last()) {
        host_pids(processes.drop_last()).insert(processes.last().pid)
    } else {
        host_pids(processes.drop_last())
    }
}

/// The nearest ancestor that is a host.
pub open spec fn nearest_host(hosts: Set<u32>, ancestors: Seq<u32>) -> Option<u32>
    decreases ancestors.len(),
{
    if ancestors.len() == 0 {
        None
    } else if hosts.contains(ancestors[0]) {
        Some(ancestors[0])
    } else {
        nearest_host(hosts, ancestors.drop_first())
    }
}

/// The host that a process belongs to now.
pub open spec fn owner_of(processes: Seq<ProcessInfo>, process: ProcessInfo) -> Option<ProcessInfo> {
    let known = tree::by_pid(processes);
    match nearest_host(host_pids(processes), tree::ancestors_of(known, process)) {
        Some(pid) => if known.contains_key(pid) {
            Some(known[pid])
        } else {
            None
        },
        None => None,
    }
}

/// The CPU time by which the activity of a process is measured: that of the whole tree below
/// it where its idleness is watched.
pub open spec fn measured_ticks(
    processes: Seq<ProcessInfo>,
    process: ProcessInfo,
    category: Category,
) -> u64 {
    if can_idle(category) {
        tree::tree_ticks(tree::by_pid(processes), tree::child_lists(processes), process.pid)
    } else {
        process.cpu_ticks
    }
}

/// The process is tracked: it is of some category and no host itself.
pub open spec fn is_tracked(process: ProcessInfo) -> bool {
    !classify::hosts(process) && classify::category_of(process) is Some
}

/// How a tracked process stands.
pub open spec fn standing_in(
    config: Config,
    now: u64,
    processes: Seq<ProcessInfo>,
    old: Seq<EntryModel>,
    process: ProcessInfo,
) -> Standing {
    let category = classify::category_of(process)->0;
    standing_of(
        config,
        now,
        category,
        owner_of(processes, process) is Some,
        measured_ticks(processes, process, category),
        old_entry(old, model::identity_text(process.pid, process.started)),
    )
}

/// The entry of a tracked process.
pub open spec fn entry_for(
    config: Config,
    now: u64,
    processes: Seq<ProcessInfo>,
    old: Seq<EntryModel>,
    process: ProcessInfo,
) -> EntryModel {
    let known = tree::by_pid(processes);
    let category = classify::category_of(process)->0;
    let owner = owner_of(processes, process);
    let standing = standing_in(config, now, processes, old, process);
    EntryModel {
        identity: model::identity_text(process.pid, process.started),
        pid: process.pid,
        parent_pid: process.parent_pid,
        name: process.name@,
        command_line: process.command_line@,
        category,
        learned_owned: standing.learned_owned,
        first_seen: standing.first_seen,
        last_seen: now,
        last_activity: standing.last_activity,
        cpu_ticks: measured_ticks(processes, process, category),
        orphan_since: standing.orphan_since,
        status: standing.status,
        started: process.started,
        owner_pid: match owner {
            Some(host) => host.pid,
            None => 0,
        },
        owner_name: match owner {
            Some(host) => host.name@,
            None => Seq::empty(),
        },
        relation_path: tree::relation_text(
            known,
            process,
            tree::ancestors_of(known, process),
            match owner {
                Some(host) => Some(host.pid),
                None => None,
            },
        ),
        child_count: tree::descendants(tree::child_lists(processes), process.pid).len() as usize,
    }
}

/// The entries of the tracked processes among `some`, in their order.
pub open spec fn entries_for(
    config: Config,
    now: u64,
    processes: Seq<ProcessInfo>,
    old: Seq<EntryModel>,
    some: Seq<ProcessInfo>,
) -> Seq<EntryModel>
    decreases some.len(),
{
    if some.len() == 0 {
        Seq::empty()
    } else {
        let before = entries_for(config, now, processes, old, some.drop_last());
        if is_tracked(some.last()) {
            before.push(entry_for(config, now, processes, old, some.last()))
        } else {
            before
        }
    }
}

/// The log line for a new status.
pub open spec fn status_event(entry: EntryModel) -> Seq<char> {
    "status pid="@ + decimal::decimal(entry.pid as nat) + " name="@ + text::cleaned(entry.name)
        + " status="@ + model::status_key(entry.status) + " category="@ + model::category_key(
        entry.category,
    )
}

/// The entry is new, or had another status in the scan before.
pub open spec fn is_news(old: Seq<EntryModel>, entry: EntryModel) -> bool {
    match old_entry(old, entry.identity) {
        Some(before) => before.status != entry.status,
        None => true,
    }
}

/// The log lines for the entries whose status is new.
pub open spec fn events_for(old: Seq<EntryModel>, entries: Seq<EntryModel>) -> Seq<Seq<char>>
    decreases entries.len(),
{
    if entries.len() == 0 {
        Seq::empty()
    } else {
        let before = events_for(old, entries.drop_last());
        if is_news(old, entries.last()) {
            before.push(status_event(entries.last()))
        } else {
            before
        }
    }
}

/// What a scan finds: the entries, and what is to be logged of them.
pub struct Scan {
    pub entries: Vec<Entry>,
    pub events: Vec<String>,
}

/// The position of the last of the old entries with the given identity.
fn find_old(old: &[Entry], wanted: &str) -> (result: Option<usize>)
    ensures
        match result {
            Some(at) => at < old@.len() && old_entry(model::entry_models(old@), wanted@) == Some(
                old@[at as int]@,
            ),
            None => old_entry(model::entry_models(old@), wanted@) is None,
        },
{
    let ghost models = model::entry_models(old@);
    let mut left: usize = old.len();
    assert(models.take(left as int) =~= models);
    while left > 0
        invariant
            left <= old@.len(),
            models == model::entry_models(old@),
            old_entry(models, wanted@) == old_entry(models.take(left as int), wanted@),
        decreases left,
    {
        left = left - 1;
        assert(models.take(left + 1).drop_last() =~= models.take(left as int));
        assert(models.take(left + 1).last() == old@[left as int]@);
        if same_text(old[left].identity.as_str(), wanted) {
            return Some(left);
        }
    }
    None
}

/// The PIDs of the hosts.
fn find_hosts(processes: &[ProcessInfo]) -> (result: HashSet<u32>)
    ensures
        result@ == host_pids(processes@),
{
    let mut result: HashSet<u32> = HashSet::new();
    assert(result@ =~= host_pids(processes@.take(0)));
    for i in 0..processes.len()
        invariant
            result@ == host_pids(processes@.take(i as int)),
    {
        assert(processes@.take(i + 1).drop_last() =~= processes@.take(i as int));
        if is_host(&processes[i]) {
            result.insert(processes[i].pid);
        }
    }
    assert(processes@.take(processes@.len() as int) =~= processes@);
    result
}

/// The nearest ancestor that is a host.
fn find_nearest_host(hosts: &HashSet<u32>, ancestors: &[u32]) -> (result: Option<u32>)
    ensures
        result == nearest_host(hosts@, ancestors@),
{
    assert(ancestors@.skip(0) =~= ancestors@);
    for i in 0..ancestors.len()
        invariant
            nearest_host(hosts@, ancestors@) == nearest_host(hosts@, ancestors@.skip(i as int)),
    {
        assert(ancestors@.skip(i as int).drop_first() =~= ancestors@.skip(i + 1));
        if hosts.contains(&ancestors[i]) {
            return Some(ancestors[i]);
        }
    }
    None
}

/// The log line for a new status.
fn write_status_event(entry: &Entry) -> (result: String)
    ensures
        result@ == status_event(entry@),
{
    let mut result = "status pid=".to_owned();
    append_decimal(&mut result, entry.pid as u64);
    result.append(" name=");
    result.append(clean_field(entry.name.as_str()).as_str());
    result.append(" status=");
    result.append(entry.status.as_str());
    result.append(" category=");
    result.append(entry.category.as_str());
    result
}

/// There are no more descendants than PIDs.
proof fn lemma_child_count_fits(children: Map<u32, Seq<u32>>, root: u32)
    ensures
        tree::descendants(children, root).len() <= u32::MAX,
{
    tree::law_descendants_are_what_is_below(children, root);
    tree::lemma_distinct_pids(tree::descendants(children, root).push(root));
}

/// The entry of a tracked process.
fn make_entry(
    config: &Config,
    now: u64,
    process: &ProcessInfo,
    category: Category,
    by_id: &HashMap<u32, &ProcessInfo>,
    children: &HashMap<u32, Vec<u32>>,
    hosts: &HashSet<u32>,
    old: &[Entry],
    Ghost(processes): Ghost<Seq<ProcessInfo>>,
) -> (result: Entry)
    requires
        tree::known(by_id@) == tree::by_pid(processes),
        tree::lists(children@) == tree::child_lists(processes),
        hosts@ == host_pids(processes),
        classify::category_of(*process) == Some(category),
    ensures
        result@ == entry_for(*config, now, processes, model::entry_models(old@), *process),
{
    let key = identity(process);
    let found = find_old(old, key.as_str());
    let old_item: Option<&Entry> = match found {
        Some(at) => Some(&old[at]),
        None => None,
    };
    let ancestor_ids = ancestors(process, by_id);
    let owner: Option<&ProcessInfo> = match find_nearest_host(hosts, ancestor_ids.as_slice()) {
        Some(pid) => match by_id.get(&pid) {
            Some(host) => {
                assert(tree::known(by_id@)[pid] == **host);
                Some(*host)
            },
            None => None,
        },
        None => None,
    };
    let cpu_ticks: u64 = if category == Category::Browser || category == Category::ToolServer {
        process_tree_cpu_ticks(process.pid, by_id, children)
    } else {
        process.cpu_ticks
    };
    let current = standing(config, now, category, owner.is_some(), cpu_ticks, old_item);
    let (owner_pid, owner_name, owner_key) = match owner {
        Some(host) => (host.pid, host.name.clone(), Some(host.pid)),
        None => (0u32, String::new(), None),
    };
    proof {
        lemma_child_count_fits(tree::child_lists(processes), process.pid);
    }
    Entry {
        identity: key,
        pid: process.pid,
        parent_pid: process.parent_pid,
        name: process.name.clone(),
        command_line: process.command_line.clone(),
        category,
        learned_owned: current.learned_owned,
        first_seen: current.first_seen,
        last_seen: now,
        last_activity: current.last_activity,
        cpu_ticks,
        orphan_since: current.orphan_since,
        status: current.status,
        started: process.started,
        owner_pid,
        owner_name,
        relation_path: relation_path(process, ancestor_ids.as_slice(), by_id, owner_key),
        child_count: descendant_ids(process.pid, children).len(),
    }
}

impl Guardian {
    /// Finds the tracked processes of a snapshot, taken at `now`, and how they stand, given the
    /// entries of the scan before.
    pub fn scan(&self, now: u64, processes: &[ProcessInfo], old: &[Entry]) -> (result: Scan)
        ensures
            model::entry_models(result.entries@) == entries_for(
                self.config,
                now,
                processes@,
                model::entry_models(old@),
                processes@,
            ),
            text::strings(result.events@) == events_for(
                model::entry_models(old@),
                model::entry_models(result.entries@),
            ),
    {
        let ghost models = model::entry_models(old@);
        let by_id = index_by_pid(processes);
        let children = build_children(processes);
        let hosts = find_hosts(processes);
        let mut entries: Vec<Entry> = Vec::new();
        let mut events: Vec<String> = Vec::new();
        assert(model::entry_models(entries@) =~= Seq::empty());
        assert(text::strings(events@) =~= Seq::empty());
        for i in 0..processes.len()
            invariant
                models == model::entry_models(old@),
                tree::known(by_id@) == tree::by_pid(processes@),
                tree::lists(children@) == tree::child_lists(processes@),
                hosts@ == host_pids(processes@),
                model::entry_models(entries@) == entries_for(
                    self.config,
                    now,
                    processes@,
                    models,
                    processes@.take(i as int),
                ),
                text::strings(events@) == events_for(models, model::entry_models(entries@)),
        {
            assert(processes@.take(i + 1).drop_last() =~= processes@.take(i as int));
            assert(processes@.take(i + 1).last() == processes@[i as int]);
            let process: &ProcessInfo = &processes[i];
            if !is_host(process) {
                if let Some(category) = classify(process) {
                    let entry = make_entry(
                        &self.config,
                        now,
                        process,
                        category,
                        &by_id,
                        &children,
                        &hosts,
                        old,
                        Ghost(processes@),
                    );
                    let news = match find_old(old, entry.identity.as_str()) {
                        Some(at) => old[at].status != entry.status,
                        None => true,
                    };
                    let ghost found = model::entry_models(entries@).push(entry@);
                    assert(found.drop_last() =~= model::entry_models(entries@));
                    if news {
                        let event = write_status_event(&entry);
                        let ghost longer = events@.push(event);
                        assert(text::strings(longer) =~= text::strings(events@).push(event@));
                        events.push(event);
                    }
                    let ghost longer = entries@.push(entry);
                    assert(model::entry_models(longer) =~= found);
                    entries.push(entry);
                }
            }
        }
        assert(processes@.take(processes@.len() as int) =~= processes@);
        Scan { entries, events }
    }
}

// ---------------------------------------------------------------------------------------------
// Laws
// ---------------------------------------------------------------------------------------------
/// The status tells whose the process is: it is only suspected where it is not known to belong
/// to a host, it is owned exactly while its host runs, and it waits for cleanup only without a
/// host, first for the grace period and then, that being over, as a candidate.
pub proof fn law_status_tells_the_owner(
    config: Config,
    now: u64,
    category: Category,
    has_owner: bool,
    cpu_ticks: u64,
    old: Option<EntryModel>,
)
    ensures
        ({
            let standing = standing_of(config, now, category, has_owner, cpu_ticks, old);
            let over = elapsed(now, standing.orphan_since) >= seconds(config.grace_minutes);
            let idle = elapsed(now, standing.last_activity);
            &&& standing.status == Status::SuspectOnly <==> !standing.learned_owned
            &&& has_owner <==> (standing.status == Status::Owned || standing.status
                == Status::OwnedIdleBrowser || standing.status == Status::OwnedIdleTool)
            &&& standing.status == Status::Candidate <==> standing.learned_owned && !has_owner
                && over
            &&& standing.status == Status::GracePeriod <==> standing.learned_owned && !has_owner
                && !over
            &&& standing.status == Status::OwnedIdleBrowser <==> has_owner && category
                == Category::Browser && idle >= seconds(config.owned_browser_idle_minutes)
            &&& standing.status == Status::OwnedIdleTool <==> has_owner && category
                == Category::ToolServer && idle >= seconds(config.owned_tool_idle_minutes)
        }),
{
}

/// A process that was once known to belong to a host stays known to, and one that is known to
/// has a host now or was known before.
pub proof fn law_ownership_is_remembered(
    config: Config,
    now: u64,
    category: Category,
    has_owner: bool,
    cpu_ticks: u64,
    old: Option<EntryModel>,
)
    ensures
        standing_of(config, now, category, has_owner, cpu_ticks, old).learned_owned <==> has_owner
            || (old matches Some(entry) && entry.learned_owned),
{
}

/// A process that has just lost its host is left alone for the grace period, whatever came
/// before.
pub proof fn law_grace_comes_first(
    config: Config,
    now: u64,
    category: Category,
    cpu_ticks: u64,
    old: EntryModel,
)
    requires
        config::in_range(config),
        old.learned_owned,
        old.orphan_since == 0,
    ensures
        standing_of(config, now, category, false, cpu_ticks, Some(old)).status
            == Status::GracePeriod,
        standing_of(config, now, category, false, cpu_ticks, Some(old)).orphan_since == now,
{
}

/// The time without a host is counted from when it was first noticed, and is forgotten as soon
/// as there is a host again.
pub proof fn law_orphan_time_runs_on(
    config: Config,
    now: u64,
    category: Category,
    has_owner: bool,
    cpu_ticks: u64,
    old: EntryModel,
)
    requires
        old.learned_owned,
        old.orphan_since != 0,
    ensures
        standing_of(config, now, category, has_owner, cpu_ticks, Some(old)).orphan_since
            == if has_owner {
            0
        } else {
            old.orphan_since
        },
{
}

/// A process that is seen for the first time is not idle: it counts as active just now.
pub proof fn law_new_process_is_not_idle(
    config: Config,
    now: u64,
    category: Category,
    has_owner: bool,
    cpu_ticks: u64,
)
    requires
        config::in_range(config),
    ensures
        standing_of(config, now, category, has_owner, cpu_ticks, None).status == if has_owner {
            Status::Owned
        } else {
            Status::SuspectOnly
        },
{
}

/// The entry is that of some tracked process among `some`.
pub open spec fn stands_for_one(
    config: Config,
    now: u64,
    processes: Seq<ProcessInfo>,
    old: Seq<EntryModel>,
    some: Seq<ProcessInfo>,
    entry: EntryModel,
) -> bool {
    exists|i: int|
        0 <= i < some.len() && is_tracked(#[trigger] some[i]) && entry == entry_for(
            config,
            now,
            processes,
            old,
            some[i],
        )
}

/// The entries are those of the tracked processes, one for each.
pub proof fn law_scan_finds_what_is_tracked(
    config: Config,
    now: u64,
    processes: Seq<ProcessInfo>,
    old: Seq<EntryModel>,
    some: Seq<ProcessInfo>,
)
    ensures
        entries_for(config, now, processes, old, some).len() == some.filter(
            |process: ProcessInfo| is_tracked(process),
        ).len(),
        forall|i: int|
            0 <= i < some.len() && is_tracked(#[trigger] some[i]) ==> entries_for(
                config,
                now,
                processes,
                old,
                some,
            ).contains(entry_for(config, now, processes, old, some[i])),
        forall|k: int|
            0 <= k < entries_for(config, now, processes, old, some).len() ==> stands_for_one(
                config,
                now,
                processes,
                old,
                some,
                #[trigger] entries_for(config, now, processes, old, some)[k],
            ),
    decreases some.len(),
{
    let found = entries_for(config, now, processes, old, some);
    reveal(Seq::filter);
    if some.len() > 0 {
        let shorter = some.drop_last();
        let before = entries_for(config, now, processes, old, shorter);
        law_scan_finds_what_is_tracked(config, now, processes, old, shorter);
        assert forall|i: int| 0 <= i < some.len() && is_tracked(
            #[trigger] some[i],
        ) implies found.contains(entry_for(config, now, processes, old, some[i])) by {
            if i < shorter.len() {
                assert(shorter[i] == some[i]);
                let wanted = entry_for(config, now, processes, old, some[i]);
                assert(before.contains(wanted));
                let k = choose|k: int| 0 <= k < before.len() && before[k] == wanted;
                assert(found[k] == wanted);
            } else {
                assert(found[before.len() as int] == entry_for(
                    config,
                    now,
                    processes,
                    old,
                    some[i],
                ));
            }
        }
        assert forall|k: int| 0 <= k < found.len() implies stands_for_one(
            config,
            now,
            processes,
            old,
            some,
            #[trigger] found[k],
        ) by {
            if k < before.len() {
                assert(found[k] == before[k]);
                assert(stands_for_one(config, now, processes, old, shorter, before[k]));
                let i = choose|i: int|
                    0 <= i < shorter.len() && is_tracked(#[trigger] shorter[i]) && before[k]
                        == entry_for(config, now, processes, old, shorter[i]);
                assert(some[i] == shorter[i]);
            } else {
                assert(some[some.len() - 1] == some.last());
            }
        }
    }
}

/// What one scan is given.
pub struct ScanInput {
    pub config: Config,
    pub now: u64,
    pub processes: Seq<ProcessInfo>,
}

/// The entries after a series of scans, each of which reads the state file that the one before
/// it wrote.
pub open spec fn entries_after(scans: Seq<ScanInput>) -> Seq<EntryModel>
    decreases scans.len(),
{
    if scans.len() == 0 {
        Seq::empty()
    } else {
        let old = state::entries_of(Some(state::content_of(entries_after(scans.drop_last()))));
        let scan = scans.last();
        entries_for(scan.config, scan.now, scan.processes, old, scan.processes)
    }
}

/// In this scan a process with the given identity ran below a host.
pub open spec fn seen_with_owner(scan: ScanInput, identity: Seq<char>) -> bool {
    exists|i: int|
        0 <= i < scan.processes.len() && model::identity_text(
            (#[trigger] scan.processes[i]).pid,
            scan.processes[i].started,
        ) == identity && owner_of(scan.processes, scan.processes[i]) is Some
}

proof fn lemma_identity_is_clean(pid: u32, started: u64)
    ensures
        text::cleaned(model::identity_text(pid, started)) == model::identity_text(pid, started),
{
    decimal::lemma_decimal_is_digits(pid as nat);
    decimal::lemma_decimal_is_digits(started as nat);
    let whole = model::identity_text(pid, started);
    let front = decimal::decimal(pid as nat);
    let back = decimal::decimal(started as nat);
    assert forall|i: int| 0 <= i < whole.len() implies !text::breaks_field(#[trigger] whole[i]) by {
        if i < front.len() {
            assert(whole[i] == front[i]);
            assert(decimal::is_digit(front[i]));
        } else if i > front.len() {
            assert(whole[i] == back[i - front.len() - 1]);
            assert(decimal::is_digit(back[i - front.len() - 1]));
        }
    }
    assert(text::cleaned(whole) =~= whole);
}

proof fn lemma_old_entry_is_listed(old: Seq<EntryModel>, identity: Seq<char>)
    ensures
        old_entry(old, identity) matches Some(entry) ==> entry.identity == identity
            && old.contains(entry),
    decreases old.len(),
{
    if old.len() > 0 {
        if old.last().identity == identity {
            assert(old[old.len() - 1] == old.last());
        } else {
            lemma_old_entry_is_listed(old.drop_last(), identity);
            if let Some(entry) = old_entry(old.drop_last(), identity) {
                let k = choose|k: int|
                    0 <= k < old.drop_last().len() && old.drop_last()[k] == entry;
                assert(old[k] == entry);
            }
        }
    }
}

/// Whatever is known to belong to a host was seen below one: over any series of scans, an entry
/// that is marked as owned has, in some scan of the series, run as the same process below a
/// host.
pub proof fn law_ownership_was_seen(scans: Seq<ScanInput>, entry: EntryModel)
    requires
        entries_after(scans).contains(entry),
        entry.learned_owned,
    ensures
        exists|m: int| 0 <= m < scans.len() && seen_with_owner(#[trigger] scans[m], entry.identity),
    decreases scans.len(),
{
    let before = entries_after(scans.drop_last());
    let old = state::entries_of(Some(state::content_of(before)));
    let scan = scans.last();
    assert(scans[scans.len() - 1] == scan);
    law_scan_finds_what_is_tracked(scan.config, scan.now, scan.processes, old, scan.processes);
    let k = choose|k: int| 0 <= k < entries_after(scans).len() && entries_after(scans)[k] == entry;
    let found = entries_for(scan.config, scan.now, scan.processes, old, scan.processes);
    assert(found[k] == entry);
    let i = choose|i: int|
        0 <= i < scan.processes.len() && is_tracked(#[trigger] scan.processes[i]) && found[k]
            == entry_for(scan.config, scan.now, scan.processes, old, scan.processes[i]);
    let process = scan.processes[i];
    assert(entry.identity == model::identity_text(process.pid, process.started));
    if owner_of(scan.processes, process) is Some {
        assert(seen_with_owner(scan, entry.identity));
    } else {
        state::law_state_reads_back(before);
        lemma_old_entry_is_listed(old, entry.identity);
        let earlier = old_entry(old, entry.identity)->0;
        let at = choose|at: int| 0 <= at < old.len() && old[at] == earlier;
        let written = before[at];
        assert(earlier == state::kept(written));
        assert(before.contains(written));
        assert(scans.drop_last().len() > 0);
        lemma_written_identity(scans.drop_last(), written);
        law_ownership_was_seen(scans.drop_last(), written);
        let m = choose|m: int|
            0 <= m < scans.drop_last().len() && seen_with_owner(
                #[trigger] scans.drop_last()[m],
                written.identity,
            );
        assert(scans[m] == scans.drop_last()[m]);
    }
}

proof fn lemma_written_identity(scans: Seq<ScanInput>, entry: EntryModel)
    requires
        scans.len() > 0,
        entries_after(scans).contains(entry),
    ensures
        text::cleaned(entry.identity) == entry.identity,
{
    let old = state::entries_of(Some(state::content_of(entries_after(scans.drop_last()))));
    let scan = scans.last();
    let found = entries_for(scan.config, scan.now, scan.processes, old, scan.processes);
    law_scan_finds_what_is_tracked(scan.config, scan.now, scan.processes, old, scan.processes);
    let k = choose|k: int| 0 <= k < found.len() && found[k] == entry;
    let i = choose|i: int|
        0 <= i < scan.processes.len() && is_tracked(#[trigger] scan.processes[i]) && found[k]
            == entry_for(scan.config, scan.now, scan.processes, old, scan.processes[i]);
    lemma_identity_is_clean(scan.processes[i].pid, scan.processes[i].started);
}

/// The entries that one scan finds, given the entries of the scan before.
pub open spec fn found_by(scan: ScanInput, old: Seq<EntryModel>) -> Seq<EntryModel> {
    entries_for(scan.config, scan.now, scan.processes, old, scan.processes)
}

/// The entries that a scan reads back from the state file that the scan before wrote.
pub open spec fn read_back(entries: Seq<EntryModel>) -> Seq<EntryModel> {
    state::entries_of(Some(state::content_of(entries)))
}

/// Of two entries with one identity the later knows of an owner where the earlier does.
pub open spec fn later_knows_as_much(entries: Seq<EntryModel>) -> bool {
    forall|i: int, j: int|
        0 <= i < j < entries.len() && (#[trigger] entries[i]).identity == (
        #[trigger] entries[j]).identity && entries[i].learned_owned ==> entries[j].learned_owned
}

/// `entry` is that of the process in the given scan, which finds it again where `earlier` has
/// its identity, and else anew.
pub open spec fn remembers(
    scan: ScanInput,
    earlier: Seq<EntryModel>,
    entry: EntryModel,
    process: ProcessInfo,
) -> bool {
    &&& is_tracked(process)
    &&& entry.identity == model::identity_text(process.pid, process.started)
    &&& forall|k: int|
        0 <= k < earlier.len() && (#[trigger] earlier[k]).identity == entry.identity ==> {
            &&& entry.first_seen == earlier[k].first_seen
            &&& earlier[k].learned_owned ==> entry.learned_owned
        }
    &&& (forall|k: int|
        0 <= k < earlier.len() ==> (#[trigger] earlier[k]).identity != entry.identity) ==> {
        &&& entry.first_seen == scan.now
        &&& entry.last_activity == scan.now
        &&& entry.learned_owned <==> owner_of(scan.processes, process) is Some
    }
}

/// The last position with the given identity is the one that counts.
proof fn lemma_old_entry_is_last(old: Seq<EntryModel>, identity: Seq<char>)
    ensures
        match old_entry(old, identity) {
            Some(entry) => exists|at: int|
                0 <= at < old.len() && #[trigger] old[at] == entry && entry.identity == identity
                    && forall|k: int|
                    at < k < old.len() ==> (#[trigger] old[k]).identity != identity,
            None => forall|k: int|
                0 <= k < old.len() ==> (#[trigger] old[k]).identity != identity,
        },
    decreases old.len(),
{
    if old.len() > 0 {
        let last = old.len() - 1;
        assert(old[last] == old.last());
        if old.last().identity != identity {
            let shorter = old.drop_last();
            lemma_old_entry_is_last(shorter, identity);
            match old_entry(shorter, identity) {
                Some(entry) => {
                    let at = choose|at: int|
                        0 <= at < shorter.len() && #[trigger] shorter[at] == entry && entry.identity
                            == identity && forall|k: int|
                            at < k < shorter.len() ==> (#[trigger] shorter[k]).identity
                                != identity;
                    assert(old[at] == entry);
                    assert forall|k: int| at < k < old.len() implies (#[trigger] old[k]).identity
                        != identity by {
                        if k < last {
                            assert(shorter[k] == old[k]);
                        }
                    }
                },
                None => {
                    assert forall|k: int| 0 <= k < old.len() implies (#[trigger] old[k]).identity
                        != identity by {
                        if k < last {
                            assert(shorter[k] == old[k]);
                        }
                    }
                },
            }
        }
    }
}

/// What an entry has from its process and from the scan before.
spec fn stems_from(
    scan: ScanInput,
    old: Seq<EntryModel>,
    entry: EntryModel,
    process: ProcessInfo,
) -> bool {
    let has_owner = owner_of(scan.processes, process) is Some;
    &&& entry.identity == model::identity_text(process.pid, process.started)
    &&& match old_entry(old, entry.identity) {
        Some(before) => {
            &&& entry.first_seen == before.first_seen
            &&& entry.learned_owned <==> has_owner || before.learned_owned
        },
        None => {
            &&& entry.first_seen == scan.now
            &&& entry.last_activity == scan.now
            &&& entry.learned_owned <==> has_owner
        },
    }
}

/// The process behind an entry that a scan found.
proof fn lemma_found_process(scan: ScanInput, old: Seq<EntryModel>, k: int) -> (i: int)
    requires
        0 <= k < found_by(scan, old).len(),
    ensures
        0 <= i < scan.processes.len(),
        is_tracked(scan.processes[i]),
        stems_from(scan, old, found_by(scan, old)[k], scan.processes[i]),
        text::cleaned(found_by(scan, old)[k].identity) == found_by(scan, old)[k].identity,
{
    law_scan_finds_what_is_tracked(scan.config, scan.now, scan.processes, old, scan.processes);
    let found = found_by(scan, old);
    assert(stands_for_one(scan.config, scan.now, scan.processes, old, scan.processes, found[k]));
    let i = choose|i: int|
        0 <= i < scan.processes.len() && is_tracked(#[trigger] scan.processes[i]) && found[k]
            == entry_for(scan.config, scan.now, scan.processes, old, scan.processes[i]);
    lemma_identity_is_clean(scan.processes[i].pid, scan.processes[i].started);
    i
}

/// The state file keeps what the next scan goes by.
proof fn lemma_read_back(scan: ScanInput, old: Seq<EntryModel>)
    ensures
        read_back(found_by(scan, old)).len() == found_by(scan, old).len(),
        forall|m: int|
            0 <= m < found_by(scan, old).len() ==> {
                let kept = #[trigger] read_back(found_by(scan, old))[m];
                &&& kept.identity == found_by(scan, old)[m].identity
                &&& kept.first_seen == found_by(scan, old)[m].first_seen
                &&& kept.learned_owned == found_by(scan, old)[m].learned_owned
            },
{
    let found = found_by(scan, old);
    let all = read_back(found);
    state::law_state_reads_back(found);
    assert forall|m: int| 0 <= m < found.len() implies {
        let kept = #[trigger] all[m];
        &&& kept.identity == found[m].identity
        &&& kept.first_seen == found[m].first_seen
        &&& kept.learned_owned == found[m].learned_owned
    } by {
        let n = lemma_found_process(scan, old, m);
        assert(all[m] == state::kept(found[m]));
    }
}

/// Entries of one scan with one identity have one first sighting.
proof fn lemma_one_first_sighting(scan: ScanInput, old: Seq<EntryModel>)
    ensures
        forall|m: int, n: int|
            0 <= m < found_by(scan, old).len() && 0 <= n < found_by(scan, old).len() && (
            #[trigger] found_by(scan, old)[m]).identity == (#[trigger] found_by(
                scan,
                old,
            )[n]).identity ==> found_by(scan, old)[m].first_seen == found_by(
                scan,
                old,
            )[n].first_seen,
{
    let found = found_by(scan, old);
    assert forall|m: int, n: int|
        0 <= m < found.len() && 0 <= n < found.len() && (#[trigger] found[m]).identity == (
        #[trigger] found[n]).identity implies found[m].first_seen == found[n].first_seen by {
        let one = lemma_found_process(scan, old, m);
        let other = lemma_found_process(scan, old, n);
    }
}

/// An entry that goes by `kept` remembers `earlier`, of which `kept` is what was read back.
proof fn lemma_remembers(
    scan: ScanInput,
    earlier: Seq<EntryModel>,
    kept: Seq<EntryModel>,
    entry: EntryModel,
    process: ProcessInfo,
)
    requires
        is_tracked(process),
        stems_from(scan, kept, entry, process),
        later_knows_as_much(earlier),
        kept.len() == earlier.len(),
        forall|m: int|
            0 <= m < earlier.len() ==> {
                &&& (#[trigger] kept[m]).identity == earlier[m].identity
                &&& kept[m].first_seen == earlier[m].first_seen
                &&& kept[m].learned_owned == earlier[m].learned_owned
            },
        forall|m: int, n: int|
            0 <= m < earlier.len() && 0 <= n < earlier.len() && (#[trigger] earlier[m]).identity
                == (#[trigger] earlier[n]).identity ==> earlier[m].first_seen
                == earlier[n].first_seen,
    ensures
        remembers(scan, earlier, entry, process),
{
    let identity = entry.identity;
    lemma_old_entry_is_last(kept, identity);
    match old_entry(kept, identity) {
        Some(before) => {
            let at = choose|at: int|
                0 <= at < kept.len() && #[trigger] kept[at] == before && before.identity == identity
                    && forall|m: int|
                    at < m < kept.len() ==> (#[trigger] kept[m]).identity != identity;
            assert(earlier[at].identity == identity);
            assert forall|m: int| 0 <= m < earlier.len() && (#[trigger] earlier[m]).identity
                == identity implies entry.first_seen == earlier[m].first_seen && (
            earlier[m].learned_owned ==> entry.learned_owned) by {
                assert(kept[m].identity == identity);
                assert(m <= at);
            }
        },
        None => {
            assert forall|m: int| 0 <= m < earlier.len() implies (#[trigger] earlier[m]).identity
                != identity by {
                assert(kept[m].identity != identity);
            }
        },
    }
}

/// A scan remembers the one before it through the state file: a process that is seen again keeps
/// its first sighting and the knowledge of its owner. A process that is new, be it under a PID
/// that was in use before, starts at the present, and is known to be owned exactly where a host
/// is above it now.
pub proof fn law_scan_remembers_the_one_before(
    first: ScanInput,
    old: Seq<EntryModel>,
    second: ScanInput,
    k: int,
)
    requires
        later_knows_as_much(found_by(first, old)),
        0 <= k < found_by(second, read_back(found_by(first, old))).len(),
    ensures
        exists|i: int|
            0 <= i < second.processes.len() && remembers(
                second,
                found_by(first, old),
                found_by(second, read_back(found_by(first, old)))[k],
                #[trigger] second.processes[i],
            ),
{
    let earlier = found_by(first, old);
    let kept = read_back(earlier);
    let i = lemma_found_process(second, kept, k);
    lemma_read_back(first, old);
    lemma_one_first_sighting(first, old);
    lemma_remembers(second, earlier, kept, found_by(second, kept)[k], second.processes[i]);
}

/// In a snapshot in which no PID occurs twice, every process has an identity of its own, and so
/// has every entry.
pub proof fn law_distinct_pids_have_one_entry(scan: ScanInput, old: Seq<EntryModel>)
    requires
        tree::distinct_pids(scan.processes),
    ensures
        forall|j: int, k: int|
            0 <= j < k < found_by(scan, old).len() ==> (#[trigger] found_by(scan, old)[j]).identity
                != (#[trigger] found_by(scan, old)[k]).identity,
        later_knows_as_much(found_by(scan, old)),
{
    lemma_distinct_identities(scan.config, scan.now, scan.processes, old, scan.processes);
}

proof fn lemma_distinct_identities(
    config: Config,
    now: u64,
    processes: Seq<ProcessInfo>,
    old: Seq<EntryModel>,
    some: Seq<ProcessInfo>,
)
    requires
        tree::distinct_pids(some),
    ensures
        forall|j: int, k: int|
            0 <= j < k < entries_for(config, now, processes, old, some).len() ==> (
            #[trigger] entries_for(config, now, processes, old, some)[j]).identity != (
            #[trigger] entries_for(config, now, processes, old, some)[k]).identity,
    decreases some.len(),
{
    if some.len() > 0 {
        let shorter = some.drop_last();
        let before = entries_for(config, now, processes, old, shorter);
        let all = entries_for(config, now, processes, old, some);
        let last = some[some.len() - 1];
        assert forall|i: int, j: int| 0 <= i < j < shorter.len() implies (
        #[trigger] shorter[i]).pid != (#[trigger] shorter[j]).pid by {
            assert(shorter[i] == some[i] && shorter[j] == some[j]);
        }
        lemma_distinct_identities(config, now, processes, old, shorter);
        law_scan_finds_what_is_tracked(config, now, processes, old, shorter);
        assert forall|j: int, k: int| 0 <= j < k < all.len() implies (
        #[trigger] all[j]).identity != (#[trigger] all[k]).identity by {
            if k < before.len() {
                assert(all[j] == before[j] && all[k] == before[k]);
            } else {
                assert(all[j] == before[j]);
                assert(stands_for_one(config, now, processes, old, shorter, before[j]));
                let i = choose|i: int|
                    0 <= i < shorter.len() && is_tracked(#[trigger] shorter[i]) && before[j]
                        == entry_for(config, now, processes, old, shorter[i]);
                assert(shorter[i] == some[i]);
                assert(some[i].pid != last.pid);
                if all[j].identity == all[k].identity {
                    model::law_identity_tells_processes_apart(
                        some[i].pid,
                        some[i].started,
                        last.pid,
                        last.started,
                    );
                }
            }
        }
    }
}

/// A process with the given PID runs in the snapshot and is a host by its own name and command
/// line.
pub open spec fn runs_host(processes: Seq<ProcessInfo>, pid: u32) -> bool {
    exists|k: int|
        0 <= k < processes.len() && (#[trigger] processes[k]).pid == pid && classify::hosts(
            processes[k],
        )
}

proof fn lemma_host_pids(processes: Seq<ProcessInfo>, pid: u32)
    ensures
        host_pids(processes).contains(pid) <==> runs_host(processes, pid),
    decreases processes.len(),
{
    if processes.len() > 0 {
        let shorter = processes.drop_last();
        let last = processes.len() - 1;
        lemma_host_pids(shorter, pid);
        assert(processes[last] == processes.last());
        if runs_host(shorter, pid) {
            let k = choose|k: int|
                0 <= k < shorter.len() && (#[trigger] shorter[k]).pid == pid && classify::hosts(
                    shorter[k],
                );
            assert(processes[k] == shorter[k]);
        }
        if runs_host(processes, pid) {
            let k = choose|k: int|
                0 <= k < processes.len() && (#[trigger] processes[k]).pid == pid && classify::hosts(
                    processes[k],
                );
            if k < last {
                assert(shorter[k] == processes[k]);
            }
        }
    }
}

proof fn lemma_nearest_host(hosts: Set<u32>, ancestors: Seq<u32>)
    ensures
        match nearest_host(hosts, ancestors) {
            Some(pid) => exists|i: int|
                0 <= i < ancestors.len() && #[trigger] ancestors[i] == pid && hosts.contains(pid)
                    && forall|j: int| 0 <= j < i ==> !hosts.contains(#[trigger] ancestors[j]),
            None => forall|i: int|
                0 <= i < ancestors.len() ==> !hosts.contains(#[trigger] ancestors[i]),
        },
    decreases ancestors.len(),
{
    if ancestors.len() > 0 {
        if hosts.contains(ancestors[0]) {
            assert(ancestors[0] == ancestors[0]);
        } else {
            let rest = ancestors.drop_first();
            lemma_nearest_host(hosts, rest);
            match nearest_host(hosts, rest) {
                Some(pid) => {
                    let i = choose|i: int|
                        0 <= i < rest.len() && #[trigger] rest[i] == pid && hosts.contains(pid)
                            && forall|j: int|
                            0 <= j < i ==> !hosts.contains(#[trigger] rest[j]);
                    assert(ancestors[i + 1] == pid);
                    assert forall|j: int| 0 <= j < i + 1 implies !hosts.contains(
                        #[trigger] ancestors[j],
                    ) by {
                        if j > 0 {
                            assert(rest[j - 1] == ancestors[j]);
                        }
                    }
                },
                None => {
                    assert forall|j: int| 0 <= j < ancestors.len() implies !hosts.contains(
                        #[trigger] ancestors[j],
                    ) by {
                        if j > 0 {
                            assert(rest[j - 1] == ancestors[j]);
                        }
                    }
                },
            }
        }
    }
}

/// `owner` is found at place `i` on the way up: it is a process of the snapshot, a host runs
/// under its PID, and no host runs under a nearer one.
pub open spec fn is_nearest_host(
    processes: Seq<ProcessInfo>,
    ancestors: Seq<u32>,
    owner: ProcessInfo,
    i: int,
) -> bool {
    &&& 0 <= i < ancestors.len()
    &&& ancestors[i] == owner.pid
    &&& processes.contains(owner)
    &&& runs_host(processes, owner.pid)
    &&& forall|j: int| 0 <= j < i ==> !runs_host(processes, #[trigger] ancestors[j])
}

/// The owner of a process is its nearest ancestor that is a host, and there is one wherever some
/// ancestor is a host. Where no PID occurs twice the owner itself is a host by its own name and
/// command line.
pub proof fn law_owner_is_the_nearest_host(processes: Seq<ProcessInfo>, process: ProcessInfo)
    ensures
        owner_of(processes, process) is Some ==> exists|i: int| #[trigger]
            is_nearest_host(
                processes,
                tree::ancestors_of(tree::by_pid(processes), process),
                owner_of(processes, process)->0,
                i,
            ),
        owner_of(processes, process) matches Some(owner) ==> tree::distinct_pids(processes)
            ==> classify::hosts(owner),
        owner_of(processes, process) is None ==> forall|i: int|
            0 <= i < tree::ancestors_of(tree::by_pid(processes), process).len() ==> !runs_host(
                processes,
                #[trigger] tree::ancestors_of(tree::by_pid(processes), process)[i],
            ),
{
    let known = tree::by_pid(processes);
    let chain = tree::ancestors_of(known, process);
    let hosts = host_pids(processes);
    lemma_nearest_host(hosts, chain);
    assert forall|pid: u32| #[trigger] hosts.contains(pid) <==> runs_host(processes, pid) by {
        lemma_host_pids(processes, pid);
    }
    tree::lemma_ancestors_are_known(known, process);
    match nearest_host(hosts, chain) {
        Some(pid) => {
            let i = choose|i: int|
                0 <= i < chain.len() && #[trigger] chain[i] == pid && hosts.contains(pid)
                    && forall|j: int| 0 <= j < i ==> !hosts.contains(#[trigger] chain[j]);
            assert(known.contains_key(chain[i]));
            tree::lemma_by_pid(processes, pid);
            let owner = known[pid];
            assert forall|j: int| 0 <= j < i implies !runs_host(
                processes,
                #[trigger] chain[j],
            ) by {
                assert(!hosts.contains(chain[j]));
            }
            assert(owner_of(processes, process) == Some(owner));
            assert(runs_host(processes, pid));
            assert(is_nearest_host(processes, chain, owner_of(processes, process)->0, i));
            if tree::distinct_pids(processes) {
                let k = choose|k: int|
                    0 <= k < processes.len() && (#[trigger] processes[k]).pid == pid
                        && classify::hosts(processes[k]);
                tree::lemma_known_under_its_pid(processes, k);
                assert(classify::hosts(owner));
            }
        },
        None => {
            assert(owner_of(processes, process) is None);
            assert forall|i: int| 0 <= i < chain.len() implies !runs_host(
                processes,
                #[trigger] chain[i],
            ) by {
                assert(!hosts.contains(chain[i]));
            }
        },
    }
}

/// Where no process of the snapshot is a host, no entry has an owner, and a first scan takes
/// every entry for a mere suspect.
pub proof fn law_without_a_host_nothing_is_owned(scan: ScanInput, old: Seq<EntryModel>, k: int)
    requires
        forall|i: int| 0 <= i < scan.processes.len() ==> !classify::hosts(#[trigger] scan.processes[i]),
        0 <= k < found_by(scan, old).len(),
    ensures
        found_by(scan, old)[k].owner_pid == 0,
        found_by(scan, old)[k].owner_name.len() == 0,
        old.len() == 0 ==> !found_by(scan, old)[k].learned_owned,
        old.len() == 0 ==> found_by(scan, old)[k].status == Status::SuspectOnly,
{
    law_scan_finds_what_is_tracked(scan.config, scan.now, scan.processes, old, scan.processes);
    let found = found_by(scan, old);
    assert(stands_for_one(scan.config, scan.now, scan.processes, old, scan.processes, found[k]));
    let i = choose|i: int|
        0 <= i < scan.processes.len() && is_tracked(#[trigger] scan.processes[i]) && found[k]
            == entry_for(scan.config, scan.now, scan.processes, old, scan.processes[i]);
    law_owner_is_the_nearest_host(scan.processes, scan.processes[i]);
}

/// An entry names its owner: the PID and the name of the nearest host above its process, and
/// neither where there is none. A process whose host runs is known to be owned.
pub proof fn law_entry_names_its_owner(scan: ScanInput, old: Seq<EntryModel>, process: ProcessInfo)
    ensures
        ({
            let entry = entry_for(scan.config, scan.now, scan.processes, old, process);
            match owner_of(scan.processes, process) {
                Some(owner) => {
                    &&& entry.owner_pid == owner.pid
                    &&& entry.owner_pid != 0
                    &&& entry.owner_name == owner.name@
                    &&& entry.learned_owned
                    &&& entry.orphan_since == 0
                },
                None => entry.owner_pid == 0 && entry.owner_name.len() == 0,
            }
        }),
{
    law_owner_is_the_nearest_host(scan.processes, process);
    tree::law_ancestors_are_older(tree::by_pid(scan.processes), process);
    if let Some(owner) = owner_of(scan.processes, process) {
        let chain = tree::ancestors_of(tree::by_pid(scan.processes), process);
        let i = choose|i: int| #[trigger] is_nearest_host(scan.processes, chain, owner, i);
        assert(chain[i] != 0);
    }
}

/// A browser or a tool server is active when it is first seen and whenever its CPU time has moved
/// by 1,000,000 units or more, either way; else, and for every other process, the last activity
/// stays what it was.
pub proof fn law_activity_is_movement(
    config: Config,
    now: u64,
    category: Category,
    has_owner: bool,
    cpu_ticks: u64,
    old: Option<EntryModel>,
)
    ensures
        ({
            let standing = standing_of(config, now, category, has_owner, cpu_ticks, old);
            match old {
                None => standing.last_activity == now && standing.first_seen == now,
                Some(entry) => {
                    let moved = cpu_ticks >= entry.cpu_ticks + 1_000_000 || entry.cpu_ticks
                        >= cpu_ticks + 1_000_000;
                    &&& standing.first_seen == entry.first_seen
                    &&& category != Category::Direct && moved ==> standing.last_activity == now
                    &&& category == Category::Direct || !moved ==> standing.last_activity
                        == entry.last_activity
                },
            }
        }),
{
}

/// The status by the clock. Below a running host a browser is idle from the first moment at which
/// its configured minutes have passed since its last activity, a tool server likewise by its own
/// minutes, and nothing else ever is. Without a host a process that had one becomes a candidate at
/// the first moment at which the minutes of grace have passed since the host was first missed.
pub proof fn law_status_goes_by_the_clock(
    config: Config,
    now: u64,
    category: Category,
    has_owner: bool,
    cpu_ticks: u64,
    old: Option<EntryModel>,
)
    requires
        1 <= config.owned_browser_idle_minutes <= 43_200,
        1 <= config.owned_tool_idle_minutes <= 43_200,
        1 <= config.grace_minutes <= 43_200,
    ensures
        ({
            let standing = standing_of(config, now, category, has_owner, cpu_ticks, old);
            let known = has_owner || (old matches Some(entry) && entry.learned_owned);
            let since = standing.last_activity;
            let alone = standing.orphan_since;
            &&& standing.learned_owned == known
            &&& standing.status == Status::SuspectOnly <==> !known
            &&& standing.status == Status::OwnedIdleBrowser <==> has_owner && category
                == Category::Browser && now >= since + 60 * config.owned_browser_idle_minutes
            &&& standing.status == Status::OwnedIdleTool <==> has_owner && category
                == Category::ToolServer && now >= since + 60 * config.owned_tool_idle_minutes
            &&& standing.status == Status::Candidate <==> known && !has_owner && now >= alone + 60
                * config.grace_minutes
            &&& standing.status == Status::GracePeriod <==> known && !has_owner && now < alone + 60
                * config.grace_minutes
            &&& has_owner || !known ==> alone == 0
            &&& known && !has_owner ==> alone == match old {
                Some(entry) => if entry.orphan_since == 0 {
                    now
                } else {
                    entry.orphan_since
                },
                None => now,
            }
        }),
{
}

/// A process is listed exactly where it is of some category and is no host itself.
pub proof fn law_hosts_are_not_listed(scan: ScanInput, old: Seq<EntryModel>, k: int)
    requires
        0 <= k < found_by(scan, old).len(),
    ensures
        exists|i: int|
            0 <= i < scan.processes.len() && !classify::hosts(#[trigger] scan.processes[i])
                && classify::category_of(scan.processes[i]) == Some(found_by(scan, old)[k].category)
                && found_by(scan, old)[k].pid == scan.processes[i].pid,
        forall|i: int|
            0 <= i < scan.processes.len() && !classify::hosts(#[trigger] scan.processes[i])
                && classify::category_of(scan.processes[i]) is Some ==> exists|m: int|
                0 <= m < found_by(scan, old).len() && (#[trigger] found_by(scan, old)[m]).identity
                    == model::identity_text(scan.processes[i].pid, scan.processes[i].started),
{
    let i = lemma_listed_process(scan, old, k);
    assert(!classify::hosts(scan.processes[i]));
    assert forall|i: int|
        0 <= i < scan.processes.len() && !classify::hosts(#[trigger] scan.processes[i])
            && classify::category_of(scan.processes[i]) is Some implies exists|m: int|
        0 <= m < found_by(scan, old).len() && (#[trigger] found_by(scan, old)[m]).identity
            == model::identity_text(scan.processes[i].pid, scan.processes[i].started) by {
        let m = lemma_tracked_process_is_listed(scan, old, i);
    }
}

/// The process that an entry stands for.
proof fn lemma_listed_process(scan: ScanInput, old: Seq<EntryModel>, k: int) -> (i: int)
    requires
        0 <= k < found_by(scan, old).len(),
    ensures
        0 <= i < scan.processes.len(),
        !classify::hosts(scan.processes[i]),
        classify::category_of(scan.processes[i]) == Some(found_by(scan, old)[k].category),
        found_by(scan, old)[k].pid == scan.processes[i].pid,
{
    let found = found_by(scan, old);
    law_scan_finds_what_is_tracked(scan.config, scan.now, scan.processes, old, scan.processes);
    assert(stands_for_one(scan.config, scan.now, scan.processes, old, scan.processes, found[k]));
    choose|i: int|
        0 <= i < scan.processes.len() && is_tracked(#[trigger] scan.processes[i]) && found[k]
            == entry_for(scan.config, scan.now, scan.processes, old, scan.processes[i])
}

/// The entry of a tracked process.
proof fn lemma_tracked_process_is_listed(scan: ScanInput, old: Seq<EntryModel>, i: int) -> (m: int)
    requires
        0 <= i < scan.processes.len(),
        !classify::hosts(scan.processes[i]),
        classify::category_of(scan.processes[i]) is Some,
    ensures
        0 <= m < found_by(scan, old).len(),
        found_by(scan, old)[m].identity == model::identity_text(
            scan.processes[i].pid,
            scan.processes[i].started,
        ),
{
    let found = found_by(scan, old);
    law_scan_finds_what_is_tracked(scan.config, scan.now, scan.processes, old, scan.processes);
    let wanted = entry_for(scan.config, scan.now, scan.processes, old, scan.processes[i]);
    assert(is_tracked(scan.processes[i]));
    assert(found.contains(wanted));
    choose|m: int| 0 <= m < found.len() && found[m] == wanted
}

/// An entry says what its process is: everything that the snapshot tells of it, when it was last
/// seen, how many processes are below it, and how it is related. The CPU time is that of the whole
/// tree where idleness is watched, and else the process's own.
pub proof fn law_entry_says_what_its_process_is(
    scan: ScanInput,
    old: Seq<EntryModel>,
    process: ProcessInfo,
)
    requires
        is_tracked(process),
    ensures
        ({
            let entry = entry_for(scan.config, scan.now, scan.processes, old, process);
            let known = tree::by_pid(scan.processes);
            let below = tree::child_lists(scan.processes);
            &&& entry.identity == model::identity_text(process.pid, process.started)
            &&& entry.pid == process.pid
            &&& entry.parent_pid == process.parent_pid
            &&& entry.name == process.name@
            &&& entry.command_line == process.command_line@
            &&& entry.started == process.started
            &&& entry.last_seen == scan.now
            &&& Some(entry.category) == classify::category_of(process)
            &&& entry.child_count == tree::descendants(below, process.pid).len() as usize
            &&& entry.category == Category::Direct ==> entry.cpu_ticks == process.cpu_ticks
            &&& entry.category != Category::Direct ==> entry.cpu_ticks == tree::tree_ticks(
                known,
                below,
                process.pid,
            )
            &&& entry.relation_path == tree::relation_text(
                known,
                process,
                tree::ancestors_of(known, process),
                match owner_of(scan.processes, process) {
                    Some(owner) => Some(owner.pid),
                    None => None,
                },
            )
            &&& ({
                let before = old_entry(old, entry.identity);
                let standing = standing_of(
                    scan.config,
                    scan.now,
                    entry.category,
                    owner_of(scan.processes, process) is Some,
                    entry.cpu_ticks,
                    before,
                );
                &&& entry.status == standing.status
                &&& entry.learned_owned == standing.learned_owned
                &&& entry.first_seen == standing.first_seen
                &&& entry.last_activity == standing.last_activity
                &&& entry.orphan_since == standing.orphan_since
            })
        }),
{
}

/// A line is logged for each entry whose status is not that of the scan before, and no other;
/// a scan that finds every status as it was logs nothing.
pub proof fn law_only_news_is_logged(old: Seq<EntryModel>, entries: Seq<EntryModel>, entry: EntryModel)
    ensures
        events_for(old, Seq::empty()).len() == 0,
        ({
            let before = old_entry(old, entry.identity);
            let news = before is None || before->0.status != entry.status;
            let line = "status pid="@ + decimal::decimal(entry.pid as nat) + " name="@
                + text::cleaned(entry.name) + " status="@ + model::status_key(entry.status)
                + " category="@ + model::category_key(entry.category);
            events_for(old, entries.push(entry)) == if news {
                events_for(old, entries).push(line)
            } else {
                events_for(old, entries)
            }
        }),
{
    assert(entries.push(entry).drop_last() =~= entries);
}

/// The old entry of an identity is the last that has it.
pub proof fn law_last_old_entry_counts(old: Seq<EntryModel>, identity: Seq<char>, k: int)
    requires
        0 <= k < old.len(),
        old[k].identity == identity,
        forall|j: int| k < j < old.len() ==> (#[trigger] old[j]).identity != identity,
    ensures
        old_entry(old, identity) == Some(old[k]),
{
    lemma_old_entry_is_last(old, identity);
    if let Some(entry) = old_entry(old, identity) {
        let at = choose|at: int|
            0 <= at < old.len() && #[trigger] old[at] == entry && entry.identity == identity
                && forall|m: int| at < m < old.len() ==> (#[trigger] old[m]).identity != identity;
        if at < k {
            assert(old[k].identity != identity);
        } else if k < at {
            assert(old[at].identity != identity);
        }
    }
}

} // verus!
