//! How entries are listed: durations, rows, search, order and selection.
use vstd::prelude::*;

use crate::decimal::{self, append_decimal, to_decimal};
use crate::model::{self, Entry, EntryModel, Status};
use crate::scan;
use crate::text::{self, at_most, contains, join, lower_chars, pad_left, pad_right, same_text, to_lower};

verus! {

/// The seconds from 1601 to 1970.
pub const WINDOWS_TO_UNIX_SECONDS: u64 = 11_644_473_600;

/// The units of a creation time in one second.
pub const TICKS_PER_SECOND: u64 = 10_000_000;

// ---------------------------------------------------------------------------------------------
// Single entries
// ---------------------------------------------------------------------------------------------
/// The entry with the given number in the list, counted from one, or else the first entry with
/// that PID. Zero stands for the first entry.
pub open spec fn found_position(entries: Seq<EntryModel>, value: u32) -> Option<int> {
    let place = if value == 0 {
        0
    } else {
        value - 1
    };
    if place < entries.len() {
        Some(place)
    } else {
        pid_position(entries, value)
    }
}

/// The position of the first entry with the given PID.
pub open spec fn pid_position(entries: Seq<EntryModel>, pid: u32) -> Option<int>
    decreases entries.len(),
{
    if entries.len() == 0 {
        None
    } else if pid_position(entries.drop_last(), pid) is Some {
        pid_position(entries.drop_last(), pid)
    } else if entries.last().pid == pid {
        Some(entries.len() - 1)
    } else {
        None
    }
}

/// The entry with the given number in the list, counted from one, or else the first entry with
/// that PID.
pub fn find_entry<'a>(entries: &'a [Entry], value: u32) -> (result: Option<&'a Entry>)
    ensures
        match result {
            Some(entry) => found_position(model::entry_models(entries@), value) matches Some(at)
                && 0 <= at < entries@.len() && *entry == entries@[at],
            None => found_position(model::entry_models(entries@), value) is None,
        },
{
    let ghost models = model::entry_models(entries@);
    let place: usize = value.saturating_sub(1) as usize;
    if place < entries.len() {
        return Some(&entries[place]);
    }
    for i in 0..entries.len()
        invariant
            models == model::entry_models(entries@),
            place == if value == 0 { 0 } else { value - 1 },
            place >= entries@.len(),
            pid_position(models.take(i as int), value) is None,
    {
        assert(models.take(i + 1).drop_last() =~= models.take(i as int));
        assert(models.take(i + 1).last() == entries@[i as int]@);
        if entries[i].pid == value {
            proof {
                lemma_position_stays(models, value, i + 1);
            }
            return Some(&entries[i]);
        }
    }
    assert(models.take(entries@.len() as int) =~= models);
    None
}

/// The first entry with a PID stays the first when more entries follow.
proof fn lemma_position_stays(entries: Seq<EntryModel>, pid: u32, count: int)
    requires
        0 <= count <= entries.len(),
        pid_position(entries.take(count), pid) is Some,
    ensures
        pid_position(entries, pid) == pid_position(entries.take(count), pid),
    decreases entries.len(),
{
    if count == entries.len() {
        assert(entries.take(count) =~= entries);
    } else {
        assert(entries.drop_last().take(count) =~= entries.take(count));
        lemma_position_stays(entries.drop_last(), pid, count);
    }
}

/// The entry wants attention: it is anything but normally running.
pub open spec fn wants_attention(entry: EntryModel) -> bool {
    entry.status != Status::Owned
}

/// Whether the entry wants attention.
pub fn is_attention(entry: &Entry) -> (result: bool)
    ensures
        result == wants_attention(entry@),
{
    entry.status != Status::Owned
}

/// The time `now` can be told in the units of a creation time.
pub open spec fn clock_fits(now: u64) -> bool {
    (now + WINDOWS_TO_UNIX_SECONDS) * TICKS_PER_SECOND <= u64::MAX
}

/// How long the process has run at `now`, in seconds; zero where its creation time is not
/// known.
pub open spec fn age(started: u64, now: u64) -> int {
    let ticks = (now + WINDOWS_TO_UNIX_SECONDS) * TICKS_PER_SECOND;
    if started == 0 || ticks < started {
        0
    } else {
        (ticks - started) / TICKS_PER_SECOND as int
    }
}

/// How long the process has run at `now`, in seconds; zero where its creation time is not
/// known.
pub fn process_age_seconds(entry: &Entry, now: u64) -> (result: u64)
    requires
        entry.started != 0 ==> clock_fits(now),
    ensures
        result == age(entry.started, now),
{
    if entry.started == 0 {
        return 0;
    }
    let ticks: u64 = (now + WINDOWS_TO_UNIX_SECONDS) * TICKS_PER_SECOND;
    ticks.saturating_sub(entry.started) / TICKS_PER_SECOND
}

/// How long the process has been idle at `now`, in seconds; zero where it is not known.
pub open spec fn idle(last_activity: u64, now: u64) -> u64 {
    if last_activity == 0 {
        0
    } else {
        scan::elapsed(now, last_activity)
    }
}

/// How long the process has been idle at `now`, in seconds; zero where it is not known.
pub fn idle_seconds(entry: &Entry, now: u64) -> (result: u64)
    ensures
        result == idle(entry.last_activity, now),
{
    if entry.last_activity == 0 {
        return 0;
    }
    now.saturating_sub(entry.last_activity)
}

/// A length of time in its two largest units.
pub open spec fn duration_text(seconds: u64) -> Seq<char> {
    let n = seconds as nat;
    if n == 0 {
        "未知"@
    } else if n >= 86_400 {
        decimal::decimal(n / 86_400) + "天"@ + decimal::decimal((n % 86_400) / 3_600) + "小时"@
    } else if n >= 3_600 {
        decimal::decimal(n / 3_600) + "小时"@ + decimal::decimal((n % 3_600) / 60) + "分"@
    } else if n >= 60 {
        decimal::decimal(n / 60) + "分"@ + decimal::decimal(n % 60) + "秒"@
    } else {
        decimal::decimal(n) + "秒"@
    }
}

/// A length of time in its two largest units.
pub fn format_duration(seconds: u64) -> (result: String)
    ensures
        result@ == duration_text(seconds),
{
    if seconds == 0 {
        return "未知".to_owned();
    }
    if seconds >= 86_400 {
        let mut result = to_decimal(seconds / 86_400);
        result.append("天");
        append_decimal(&mut result, (seconds % 86_400) / 3_600);
        result.append("小时");
        result
    } else if seconds >= 3_600 {
        let mut result = to_decimal(seconds / 3_600);
        result.append("小时");
        append_decimal(&mut result, (seconds % 3_600) / 60);
        result.append("分");
        result
    } else if seconds >= 60 {
        let mut result = to_decimal(seconds / 60);
        result.append("分");
        append_decimal(&mut result, seconds % 60);
        result.append("秒");
        result
    } else {
        let mut result = to_decimal(seconds);
        result.append("秒");
        result
    }
}

/// An entry as the terminal lists it, with its number counted from one.
pub open spec fn terminal_line(index: nat, entry: EntryModel) -> Seq<char> {
    text::padded_left(decimal::decimal(index + 1), 3) + ". PID "@ + text::padded_right(
        decimal::decimal(entry.pid as nat),
        7,
    ) + " "@ + text::padded_right(entry.name, 24) + " "@ + text::padded_right(
        model::status_key(entry.status),
        18,
    ) + " "@ + model::category_key(entry.category)
}

/// An entry as the terminal lists it, with its number counted from one.
pub fn format_entry(index: usize, entry: &Entry) -> (result: String)
    requires
        index < usize::MAX,
    ensures
        result@ == terminal_line(index as nat, entry@),
{
    let mut result = pad_left(to_decimal((index + 1) as u64).as_str(), 3);
    result.append(". PID ");
    result.append(pad_right(to_decimal(entry.pid as u64).as_str(), 7).as_str());
    result.append(" ");
    result.append(pad_right(entry.name.as_str(), 24).as_str());
    result.append(" ");
    result.append(pad_right(entry.status.as_str(), 18).as_str());
    result.append(" ");
    result.append(entry.category.as_str());
    result
}

// ---------------------------------------------------------------------------------------------
// The table
// ---------------------------------------------------------------------------------------------
/// The owner of an entry as the table shows it.
pub open spec fn owner_cell(entry: EntryModel) -> Seq<char> {
    if entry.owner_pid == 0 {
        "未确认"@
    } else {
        entry.owner_name + " ("@ + decimal::decimal(entry.owner_pid as nat) + ")"@
    }
}

/// The cells of one row of the table.
pub open spec fn cells(entry: EntryModel, now: u64) -> Seq<Seq<char>> {
    seq![
        model::status_risk(entry.status),
        model::status_title(entry.status),
        decimal::decimal(entry.pid as nat),
        entry.name,
        model::category_title(entry.category),
        owner_cell(entry),
        decimal::decimal(entry.parent_pid as nat),
        decimal::decimal(entry.child_count as nat),
        duration_text(age(entry.started, now) as u64),
        duration_text(idle(entry.last_activity, now)),
    ]
}

/// The cells of one row of the table.
pub fn row_values(entry: &Entry, now: u64) -> (result: Vec<String>)
    requires
        entry.started != 0 ==> clock_fits(now),
    ensures
        text::strings(result@) == cells(entry@, now),
{
    let owner = if entry.owner_pid == 0 {
        "未确认".to_owned()
    } else {
        let mut owner = entry.owner_name.clone();
        owner.append(" (");
        append_decimal(&mut owner, entry.owner_pid as u64);
        owner.append(")");
        owner
    };
    let mut result: Vec<String> = Vec::new();
    result.push(entry.status.risk_name().to_owned());
    result.push(entry.status.display_name().to_owned());
    result.push(to_decimal(entry.pid as u64));
    result.push(entry.name.clone());
    result.push(entry.category.display_name().to_owned());
    result.push(owner);
    result.push(to_decimal(entry.parent_pid as u64));
    result.push(to_decimal(entry.child_count as u64));
    result.push(format_duration(process_age_seconds(entry, now)));
    result.push(format_duration(idle_seconds(entry, now)));
    assert(text::strings(result@) =~= cells(entry@, now));
    result
}

/// The fields that a search looks through.
pub open spec fn searched_fields(entry: EntryModel) -> Seq<Seq<char>> {
    seq![
        decimal::decimal(entry.pid as nat),
        entry.name,
        model::category_title(entry.category),
        model::status_title(entry.status),
        entry.owner_name,
        decimal::decimal(entry.parent_pid as nat),
        entry.relation_path,
        entry.command_line,
    ]
}

/// What a search looks through: the fields with spaces between them.
pub open spec fn searched_text(entry: EntryModel) -> Seq<char> {
    text::joined(searched_fields(entry), " "@)
}

/// The entry shows up in a search. `search` is in small letters.
pub open spec fn is_match(entry: EntryModel, search: Seq<char>) -> bool {
    search.len() == 0 || text::has(text::ascii_lower(searched_text(entry)), search)
}

/// Whether the entry shows up in a search. `search` is in small letters.
pub fn matches_search(entry: &Entry, search: &str) -> (result: bool)
    ensures
        result == is_match(entry@, search@),
{
    if search.is_empty() {
        return true;
    }
    let mut fields: Vec<String> = Vec::new();
    fields.push(to_decimal(entry.pid as u64));
    fields.push(entry.name.clone());
    fields.push(entry.category.display_name().to_owned());
    fields.push(entry.status.display_name().to_owned());
    fields.push(entry.owner_name.clone());
    fields.push(to_decimal(entry.parent_pid as u64));
    fields.push(entry.relation_path.clone());
    fields.push(entry.command_line.clone());
    assert(text::strings(fields@) =~= searched_fields(entry@));
    let all = join(&fields, " ");
    contains(lower_chars(all.as_str()).as_slice(), search)
}

/// The rank of a status in the table, the most urgent first.
pub open spec fn rank(status: Status) -> u8 {
    match status {
        Status::Candidate => 0,
        Status::OwnedIdleBrowser | Status::OwnedIdleTool => 1,
        Status::GracePeriod => 2,
        Status::SuspectOnly => 3,
        Status::Owned => 4,
    }
}

/// The rank of a status in the table, the most urgent first.
pub fn status_order(status: &Status) -> (result: u8)
    ensures
        result == rank(*status),
{
    match status {
        Status::Candidate => 0,
        Status::OwnedIdleBrowser | Status::OwnedIdleTool => 1,
        Status::GracePeriod => 2,
        Status::SuspectOnly => 3,
        Status::Owned => 4,
    }
}

/// `a` belongs before `b` in the table, or may stand on either side: entries are ordered by
/// rank, then by owner, then by name in small letters, then by PID.
pub open spec fn key_le(a: EntryModel, b: EntryModel) -> bool {
    if rank(a.status) != rank(b.status) {
        rank(a.status) < rank(b.status)
    } else if a.owner_pid != b.owner_pid {
        a.owner_pid < b.owner_pid
    } else if text::ascii_lower(a.name) != text::ascii_lower(b.name) {
        text::text_le(text::ascii_lower(a.name), text::ascii_lower(b.name))
    } else {
        a.pid <= b.pid
    }
}

/// The entry at position `a` comes before the one at position `b` in the table. Entries that
/// may stand on either side keep their order.
pub open spec fn precedes(entries: Seq<EntryModel>, a: int, b: int) -> bool {
    &&& key_le(entries[a], entries[b])
    &&& key_le(entries[b], entries[a]) ==> a < b
}

/// The entry is shown in the table.
pub open spec fn is_shown(entry: EntryModel, attention_only: bool, search: Seq<char>) -> bool {
    (!attention_only || wants_attention(entry)) && is_match(entry, search)
}

/// `positions` are those of the entries that are shown, in the order of the table.
pub open spec fn is_table(
    entries: Seq<EntryModel>,
    attention_only: bool,
    search: Seq<char>,
    positions: Seq<usize>,
) -> bool {
    &&& forall|k: int|
        0 <= k < positions.len() ==> (#[trigger] positions[k]) < entries.len() && is_shown(
            entries[positions[k] as int],
            attention_only,
            search,
        )
    &&& forall|i: int|
        0 <= i < entries.len() && is_shown(#[trigger] entries[i], attention_only, search)
            ==> positions.contains(i as usize)
    &&& forall|j: int, k: int|
        0 <= j < k < positions.len() ==> precedes(
            entries,
            #[trigger] positions[j] as int,
            #[trigger] positions[k] as int,
        )
}

/// Whether `a` belongs before `b` in the table, or may stand on either side.
fn may_precede(a: &Entry, b: &Entry) -> (result: bool)
    ensures
        result == key_le(a@, b@),
{
    let rank_a: u8 = status_order(&a.status);
    let rank_b: u8 = status_order(&b.status);
    if rank_a != rank_b {
        return rank_a < rank_b;
    }
    if a.owner_pid != b.owner_pid {
        return a.owner_pid < b.owner_pid;
    }
    let name_a = to_lower(a.name.as_str());
    let name_b = to_lower(b.name.as_str());
    if !same_text(name_a.as_str(), name_b.as_str()) {
        return at_most(name_a.as_str(), name_b.as_str());
    }
    a.pid <= b.pid
}

/// The order of texts is total, and its two directions meet in equal texts only.
proof fn lemma_text_order(a: Seq<char>, b: Seq<char>)
    ensures
        text::text_le(a, b) || text::text_le(b, a),
        text::text_le(a, b) && text::text_le(b, a) ==> a == b,
    decreases a.len(),
{
    if a.len() > 0 && b.len() > 0 {
        lemma_text_order(a.drop_first(), b.drop_first());
        if text::text_le(a, b) && text::text_le(b, a) {
            assert(a[0] == b[0]);
            assert(a =~= seq![a[0]] + a.drop_first());
            assert(b =~= seq![b[0]] + b.drop_first());
        }
    } else if a.len() == 0 && b.len() == 0 {
        assert(a =~= b);
    }
}

/// The order of texts can be chained.
proof fn lemma_text_order_chains(a: Seq<char>, b: Seq<char>, c: Seq<char>)
    requires
        text::text_le(a, b),
        text::text_le(b, c),
    ensures
        text::text_le(a, c),
    decreases a.len(),
{
    if a.len() > 0 && a[0] == b[0] && b[0] == c[0] {
        lemma_text_order_chains(a.drop_first(), b.drop_first(), c.drop_first());
    }
}

proof fn lemma_key_order(a: EntryModel, b: EntryModel)
    ensures
        key_le(a, b) || key_le(b, a),
{
    lemma_text_order(text::ascii_lower(a.name), text::ascii_lower(b.name));
}

proof fn lemma_key_order_chains(a: EntryModel, b: EntryModel, c: EntryModel)
    requires
        key_le(a, b),
        key_le(b, c),
    ensures
        key_le(a, c),
{
    let x = text::ascii_lower(a.name);
    let y = text::ascii_lower(b.name);
    let z = text::ascii_lower(c.name);
    lemma_text_order(x, y);
    lemma_text_order(y, z);
    lemma_text_order(x, z);
    if text::text_le(x, y) && text::text_le(y, z) {
        lemma_text_order_chains(x, y, z);
    }
}

/// The positions of the entries that the table shows, in its order.
pub fn visible_entries(entries: &[Entry], attention_only: bool, search: &str) -> (result: Vec<
    usize,
>)
    ensures
        is_table(model::entry_models(entries@), attention_only, search@, result@),
{
    let ghost models = model::entry_models(entries@);
    let mut result: Vec<usize> = Vec::new();
    for i in 0..entries.len()
        invariant
            models == model::entry_models(entries@),
            forall|k: int|
                0 <= k < result@.len() ==> (#[trigger] result@[k]) < i && is_shown(
                    models[result@[k] as int],
                    attention_only,
                    search@,
                ),
            forall|p: int|
                0 <= p < i && is_shown(#[trigger] models[p], attention_only, search@)
                    ==> result@.contains(p as usize),
            forall|j: int, k: int|
                0 <= j < k < result@.len() ==> precedes(
                    models,
                    #[trigger] result@[j] as int,
                    #[trigger] result@[k] as int,
                ),
    {
        let entry: &Entry = &entries[i];
        assert(models[i as int] == entry@);
        if (!attention_only || is_attention(entry)) && matches_search(entry, search) {
            insert_position(entries, &mut result, i, Ghost(attention_only), Ghost(search@));
        }
    }
    result
}

/// Puts one more position, larger than all others, at its place in the table.
fn insert_position(
    entries: &[Entry],
    positions: &mut Vec<usize>,
    position: usize,
    Ghost(attention_only): Ghost<bool>,
    Ghost(search): Ghost<Seq<char>>,
)
    requires
        position < entries@.len(),
        is_shown(entries@[position as int]@, attention_only, search),
        forall|k: int|
            0 <= k < old(positions)@.len() ==> (#[trigger] old(positions)@[k]) < position
                && is_shown(
                model::entry_models(entries@)[old(positions)@[k] as int],
                attention_only,
                search,
            ),
        forall|j: int, k: int|
            0 <= j < k < old(positions)@.len() ==> precedes(
                model::entry_models(entries@),
                #[trigger] old(positions)@[j] as int,
                #[trigger] old(positions)@[k] as int,
            ),
    ensures
        forall|k: int|
            0 <= k < final(positions)@.len() ==> (#[trigger] final(positions)@[k]) < position + 1
                && is_shown(
                model::entry_models(entries@)[final(positions)@[k] as int],
                attention_only,
                search,
            ),
        final(positions)@.contains(position),
        forall|p: usize| #[trigger]
            old(positions)@.contains(p) ==> final(positions)@.contains(p),
        forall|j: int, k: int|
            0 <= j < k < final(positions)@.len() ==> precedes(
                model::entry_models(entries@),
                #[trigger] final(positions)@[j] as int,
                #[trigger] final(positions)@[k] as int,
            ),
{
    let ghost models = model::entry_models(entries@);
    let ghost before = positions@;
    let mut place: usize = positions.len();
    while place > 0 && !may_precede(&entries[positions[place - 1]], &entries[position])
        invariant
            place <= positions@.len(),
            positions@ == before,
            position < entries@.len(),
            models == model::entry_models(entries@),
            forall|k: int| 0 <= k < before.len() ==> (#[trigger] before[k]) < position,
            forall|k: int|
                place <= k < before.len() ==> !key_le(
                    models[#[trigger] before[k] as int],
                    models[position as int],
                ),
        decreases place,
    {
        place = place - 1;
    }
    positions.insert(place, position);
    let ghost after = positions@;
    proof {
        assert forall|k: int| 0 <= k < place implies key_le(
            models[#[trigger] before[k] as int],
            models[position as int],
        ) by {
            let last = before[place - 1] as int;
            assert(key_le(models[last], models[position as int]));
            if k < place - 1 {
                assert(precedes(models, before[k] as int, before[place - 1] as int));
                lemma_key_order_chains(models[before[k] as int], models[last], models[position as int]);
            }
        }
        assert forall|k: int| place <= k < before.len() implies precedes(
            models,
            position as int,
            #[trigger] before[k] as int,
        ) by {
            lemma_key_order(models[position as int], models[before[k] as int]);
        }
        assert forall|k: int| 0 <= k < after.len() implies after[k] == if k < place {
            before[k]
        } else if k == place {
            position
        } else {
            before[k - 1]
        } by {}
        assert forall|j: int, k: int| 0 <= j < k < after.len() implies precedes(
            models,
            #[trigger] after[j] as int,
            #[trigger] after[k] as int,
        ) by {
            if j < place && k == place {
                assert(key_le(models[before[j] as int], models[position as int]));
            } else if j == place {
                assert(precedes(models, position as int, before[k - 1] as int));
            } else {
                let low = if j < place { j } else { j - 1 };
                let high = if k < place { k } else { k - 1 };
                assert(precedes(models, before[low] as int, before[high] as int));
            }
        }
        assert(after[place as int] == position);
        assert forall|p: usize| #[trigger] before.contains(p) implies after.contains(p) by {
            let k = choose|k: int| 0 <= k < before.len() && before[k] == p;
            if k < place {
                assert(after[k] == p);
            } else {
                assert(after[k + 1] == p);
            }
        }
    }
}

// ---------------------------------------------------------------------------------------------
// Laws
// ---------------------------------------------------------------------------------------------
/// There is one table for any entries: what is shown and in what order is settled.
pub proof fn law_table_is_settled(
    entries: Seq<EntryModel>,
    attention_only: bool,
    search: Seq<char>,
    a: Seq<usize>,
    b: Seq<usize>,
)
    requires
        is_table(entries, attention_only, search, a),
        is_table(entries, attention_only, search, b),
    ensures
        a == b,
{
    lemma_tables_agree(entries, attention_only, search, a, b, a.len() as int);
    lemma_tables_agree(entries, attention_only, search, b, a, b.len() as int);
    assert(a =~= b);
}

/// Two tables agree up to any place of the first.
proof fn lemma_tables_agree(
    entries: Seq<EntryModel>,
    attention_only: bool,
    search: Seq<char>,
    a: Seq<usize>,
    b: Seq<usize>,
    count: int,
)
    requires
        is_table(entries, attention_only, search, a),
        is_table(entries, attention_only, search, b),
        0 <= count <= a.len(),
    ensures
        count <= b.len(),
        forall|i: int| 0 <= i < count ==> a[i] == b[i],
    decreases count,
{
    if count > 0 {
        let k = count - 1;
        lemma_tables_agree(entries, attention_only, search, a, b, k);
        assert(is_shown(entries[a[k] as int], attention_only, search));
        assert(b.contains(a[k]));
        let m = choose|m: int| 0 <= m < b.len() && b[m] == a[k];
        if m < k {
            assert(precedes(entries, a[m] as int, a[k] as int));
        } else if m > k {
            assert(is_shown(entries[b[k] as int], attention_only, search));
            assert(a.contains(b[k]));
            let n = choose|n: int| 0 <= n < a.len() && a[n] == b[k];
            assert(precedes(entries, b[k] as int, b[m] as int));
            if n < k {
                assert(b[n] == b[k]);
                assert(precedes(entries, b[n] as int, b[k] as int));
            } else if n > k {
                assert(precedes(entries, a[k] as int, a[n] as int));
            }
        }
    }
}

/// The table puts what is more urgent first.
pub proof fn law_urgent_entries_come_first(
    entries: Seq<EntryModel>,
    attention_only: bool,
    search: Seq<char>,
    positions: Seq<usize>,
    j: int,
    k: int,
)
    requires
        is_table(entries, attention_only, search, positions),
        0 <= j < k < positions.len(),
    ensures
        rank(entries[positions[j] as int].status) <= rank(entries[positions[k] as int].status),
{
    assert(precedes(entries, positions[j] as int, positions[k] as int));
}

spec fn stands_between(front: Seq<char>, part: Seq<char>, back: Seq<char>, whole: Seq<char>) -> bool {
    whole == front + part + back
}

proof fn lemma_joined_holds_its_parts(parts: Seq<Seq<char>>, i: int)
    requires
        0 <= i < parts.len(),
    ensures
        exists|front: Seq<char>, back: Seq<char>| #[trigger]
            stands_between(front, parts[i], back, text::joined(parts, " "@)),
    decreases parts.len(),
{
    let whole = text::joined(parts, " "@);
    let none = Seq::<char>::empty();
    if parts.len() == 1 {
        assert(whole =~= none + parts[i] + none);
        assert(stands_between(none, parts[i], none, whole));
    } else if i == parts.len() - 1 {
        let front = text::joined(parts.drop_last(), " "@) + " "@;
        assert(whole =~= front + parts[i] + none);
        assert(stands_between(front, parts[i], none, whole));
    } else {
        let shorter = parts.drop_last();
        lemma_joined_holds_its_parts(shorter, i);
        let (front, back) = choose|front: Seq<char>, back: Seq<char>| #[trigger]
            stands_between(front, shorter[i], back, text::joined(shorter, " "@));
        let rest = back + " "@ + parts.last();
        assert(whole =~= front + parts[i] + rest);
        assert(stands_between(front, parts[i], rest, whole));
    }
}

proof fn lemma_part_is_found(front: Seq<char>, part: Seq<char>, back: Seq<char>)
    ensures
        text::has(text::ascii_lower(front + part + back), text::ascii_lower(part)),
{
    let whole = text::ascii_lower(front + part + back);
    assert(whole.subrange(front.len() as int, front.len() as int + part.len())
        =~= text::ascii_lower(part));
    assert(text::occurs_at(whole, text::ascii_lower(part), front.len() as int));
}

/// A search for any part of a field finds the entry: a part of its PID, its name, its type, its
/// status, its owner, the PID of its parent, its relations or its command line.
pub proof fn law_search_finds_each_field(
    entry: EntryModel,
    field: int,
    front: Seq<char>,
    part: Seq<char>,
    back: Seq<char>,
)
    requires
        0 <= field < searched_fields(entry).len(),
        searched_fields(entry)[field] == front + part + back,
    ensures
        is_match(entry, text::ascii_lower(part)),
{
    let fields = searched_fields(entry);
    lemma_joined_holds_its_parts(fields, field);
    let (before, after) = choose|before: Seq<char>, after: Seq<char>| #[trigger]
        stands_between(before, fields[field], after, searched_text(entry));
    assert(searched_text(entry) =~= (before + front) + part + (back + after));
    lemma_part_is_found(before + front, part, back + after);
}

/// The user counts from one: number `n` is the entry in place `n - 1`, and zero is the first too.
/// A number beyond the list is a PID, and the first entry that has it is meant.
pub proof fn law_numbers_come_before_pids(entries: Seq<EntryModel>, value: u32, k: int)
    ensures
        1 <= value <= entries.len() ==> found_position(entries, value) == Some(value - 1),
        value == 0 && entries.len() > 0 ==> found_position(entries, value) == Some(0int),
        value > entries.len() && 0 <= k < entries.len() && entries[k].pid == value && (forall|j: int|
            0 <= j < k ==> (#[trigger] entries[j]).pid != value) ==> found_position(entries, value)
            == Some(k),
        value > entries.len() && (forall|j: int|
            0 <= j < entries.len() ==> (#[trigger] entries[j]).pid != value) ==> found_position(
            entries,
            value,
        ) is None,
        entries.len() == 0 ==> found_position(entries, value) is None,
{
    if value > entries.len() {
        lemma_first_with_pid(entries, value, k);
    }
}

proof fn lemma_first_with_pid(entries: Seq<EntryModel>, pid: u32, k: int)
    ensures
        0 <= k < entries.len() && entries[k].pid == pid && (forall|j: int|
            0 <= j < k ==> (#[trigger] entries[j]).pid != pid) ==> pid_position(entries, pid)
            == Some(k),
        (forall|j: int| 0 <= j < entries.len() ==> (#[trigger] entries[j]).pid != pid)
            ==> pid_position(entries, pid) is None,
    decreases entries.len(),
{
    if entries.len() > 0 {
        let shorter = entries.drop_last();
        let last = entries.len() - 1;
        lemma_first_with_pid(shorter, pid, k);
        assert(forall|j: int| 0 <= j < last ==> #[trigger] shorter[j] == entries[j]);
        if forall|j: int| 0 <= j < entries.len() ==> (#[trigger] entries[j]).pid != pid {
            assert(entries[last].pid != pid);
            assert forall|j: int| 0 <= j < shorter.len() implies (#[trigger] shorter[j]).pid
                != pid by {
                assert(entries[j].pid != pid);
            }
        }
        if 0 <= k < entries.len() && entries[k].pid == pid && (forall|j: int|
            0 <= j < k ==> (#[trigger] entries[j]).pid != pid) {
            assert forall|j: int| 0 <= j < k && j < shorter.len() implies (
            #[trigger] shorter[j]).pid != pid by {
                assert(entries[j].pid != pid);
            }
        }
    }
}

/// What runs normally wants no attention; everything else does.
pub proof fn law_everything_but_normal_wants_attention(entry: EntryModel)
    ensures
        wants_attention(entry) <==> !(entry.status is Owned),
{
}

/// A process that was started `age` seconds and a fraction before `now` is `age` seconds old. Its
/// creation time counts units of 100 ns from 1601, 11,644,473,600 seconds before 1970.
pub proof fn law_age_is_the_time_since_the_start(now: u64, seconds: u64, fraction: u64, started: u64)
    requires
        fraction < 10_000_000,
        started > 0,
        started + seconds * 10_000_000 + fraction == (now + 11_644_473_600) * 10_000_000,
    ensures
        age(started, now) == seconds,
        age(0, now) == 0,
{
}

/// A creation time that lies ahead makes no age.
pub proof fn law_future_start_has_no_age(now: u64, started: u64)
    requires
        started >= (now + 11_644_473_600) * 10_000_000,
    ensures
        age(started, now) == 0,
{
}

/// Idle time is what has passed since the last activity; none where that lies ahead or is not
/// known.
pub proof fn law_idle_time_is_the_time_since_activity(last_activity: u64, now: u64)
    ensures
        0 < last_activity <= now ==> idle(last_activity, now) == now - last_activity,
        last_activity == 0 || last_activity >= now ==> idle(last_activity, now) == 0,
{
}

/// A length of time is told in its two largest units, rounded down: what is told falls short of
/// it by less than the smaller of the two units, and the smaller never reaches the larger.
pub proof fn law_duration_is_told_in_two_units(seconds: u64)
    ensures
        seconds == 0 ==> duration_text(seconds) == "未知"@,
        0 < seconds < 60 ==> duration_text(seconds) == decimal::decimal(seconds as nat) + "秒"@,
        60 <= seconds < 3_600 ==> exists|minutes: nat, rest: nat|
            duration_text(seconds) == #[trigger] decimal::decimal(minutes) + "分"@
                + #[trigger] decimal::decimal(rest) + "秒"@ && rest < 60 && minutes * 60 + rest
                == seconds,
        3_600 <= seconds < 86_400 ==> exists|hours: nat, rest: nat|
            duration_text(seconds) == #[trigger] decimal::decimal(hours) + "小时"@
                + #[trigger] decimal::decimal(rest) + "分"@ && rest < 60 && hours * 3_600 + rest
                * 60 <= seconds < hours * 3_600 + rest * 60 + 60,
        86_400 <= seconds ==> exists|days: nat, rest: nat|
            duration_text(seconds) == #[trigger] decimal::decimal(days) + "天"@
                + #[trigger] decimal::decimal(rest) + "小时"@ && rest < 24 && days * 86_400 + rest
                * 3_600 <= seconds < days * 86_400 + rest * 3_600 + 3_600,
{
    let n = seconds as nat;
    if 60 <= n < 3_600 {
        assert(duration_text(seconds) == decimal::decimal(n / 60) + "分"@ + decimal::decimal(n % 60)
            + "秒"@);
    } else if 3_600 <= n < 86_400 {
        assert(duration_text(seconds) == decimal::decimal(n / 3_600) + "小时"@ + decimal::decimal(
            (n % 3_600) / 60,
        ) + "分"@);
    } else if n >= 86_400 {
        assert(duration_text(seconds) == decimal::decimal(n / 86_400) + "天"@ + decimal::decimal(
            (n % 86_400) / 3_600,
        ) + "小时"@);
    }
}

/// How pressing a status is: what should be ended comes before what idles, that before what waits
/// for its end, that before what is only suspected, and what runs normally comes last.
pub proof fn law_urgency_has_its_order(a: Status, b: Status)
    ensures
        a is Candidate && !(b is Candidate) ==> rank(a) < rank(b),
        (a is OwnedIdleBrowser || a is OwnedIdleTool) && (b is OwnedIdleBrowser || b is OwnedIdleTool)
            ==> rank(a) == rank(b),
        (a is OwnedIdleBrowser || a is OwnedIdleTool) && (b is GracePeriod || b is SuspectOnly)
            ==> rank(a) < rank(b),
        a is GracePeriod && b is SuspectOnly ==> rank(a) < rank(b),
        !(a is Owned) && b is Owned ==> rank(a) < rank(b),
{
}

/// The table shows an entry exactly where the filter lets it through and some field, or several
/// with spaces between them, hold what is looked for.
pub proof fn law_table_shows_what_is_asked_for(
    entries: Seq<EntryModel>,
    attention_only: bool,
    search: Seq<char>,
    positions: Seq<usize>,
    i: int,
)
    requires
        is_table(entries, attention_only, search, positions),
        entries.len() <= usize::MAX,
        0 <= i < entries.len(),
    ensures
        positions.contains(i as usize) <==> (attention_only ==> !(entries[i].status is Owned)) && (
        search.len() > 0 ==> text::has(
            text::ascii_lower(
                text::joined(
                    seq![
                        decimal::decimal(entries[i].pid as nat),
                        entries[i].name,
                        model::category_title(entries[i].category),
                        model::status_title(entries[i].status),
                        entries[i].owner_name,
                        decimal::decimal(entries[i].parent_pid as nat),
                        entries[i].relation_path,
                        entries[i].command_line,
                    ],
                    " "@,
                ),
            ),
            search,
        )),
{
    if positions.contains(i as usize) {
        let k = choose|k: int| 0 <= k < positions.len() && positions[k] == i as usize;
        assert(is_shown(entries[positions[k] as int], attention_only, search));
    }
    assert(is_shown(entries[i], attention_only, search) <==> (attention_only
        ==> wants_attention(entries[i])) && is_match(entries[i], search));
}

/// Rows are ordered by urgency, then by the PID of the owner, then by name without regard to
/// letter case, then by PID; where all four agree, they keep the order of the scan. No entry has
/// two rows.
pub proof fn law_rows_have_their_order(
    entries: Seq<EntryModel>,
    attention_only: bool,
    search: Seq<char>,
    positions: Seq<usize>,
    j: int,
    k: int,
)
    requires
        is_table(entries, attention_only, search, positions),
        0 <= j < k < positions.len(),
    ensures
        ({
            let a = entries[positions[j] as int];
            let b = entries[positions[k] as int];
            let x = text::ascii_lower(a.name);
            let y = text::ascii_lower(b.name);
            &&& rank(a.status) <= rank(b.status)
            &&& rank(a.status) == rank(b.status) ==> a.owner_pid <= b.owner_pid
            &&& rank(a.status) == rank(b.status) && a.owner_pid == b.owner_pid ==> text::text_le(
                x,
                y,
            )
            &&& rank(a.status) == rank(b.status) && a.owner_pid == b.owner_pid && x == y ==> a.pid
                <= b.pid
            &&& rank(a.status) == rank(b.status) && a.owner_pid == b.owner_pid && x == y && a.pid
                == b.pid ==> positions[j] < positions[k]
            &&& positions[j] != positions[k]
        }),
{
    assert(precedes(entries, positions[j] as int, positions[k] as int));
    let a = entries[positions[j] as int];
    let b = entries[positions[k] as int];
    lemma_text_order(text::ascii_lower(a.name), text::ascii_lower(b.name));
}

/// The cells of a row, from left to right: risk, status, PID, name, type, owner, PID of the
/// parent, number of processes below, age, idle time.
pub proof fn law_row_shows_its_entry(entry: EntryModel, now: u64)
    ensures
        ({
            let row = cells(entry, now);
            &&& row.len() == 10
            &&& row[0] == model::status_risk(entry.status)
            &&& row[1] == model::status_title(entry.status)
            &&& row[2] == decimal::decimal(entry.pid as nat)
            &&& row[3] == entry.name
            &&& row[4] == model::category_title(entry.category)
            &&& entry.owner_pid == 0 ==> row[5] == "未确认"@
            &&& entry.owner_pid != 0 ==> row[5] == entry.owner_name + " ("@ + decimal::decimal(
                entry.owner_pid as nat,
            ) + ")"@
            &&& row[6] == decimal::decimal(entry.parent_pid as nat)
            &&& row[7] == decimal::decimal(entry.child_count as nat)
            &&& row[8] == duration_text(age(entry.started, now) as u64)
            &&& row[9] == duration_text(idle(entry.last_activity, now))
        }),
{
}

/// What is appended behind a column leaves the column where it is.
proof fn lemma_column_stays(so_far: Seq<char>, more: Seq<char>, from: int, to: int)
    requires
        0 <= from <= to <= so_far.len(),
    ensures
        (so_far + more).subrange(from, to) == so_far.subrange(from, to),
{
    assert((so_far + more).subrange(from, to) =~= so_far.subrange(from, to));
}

/// What was appended last stands at the end.
proof fn lemma_last_column(so_far: Seq<char>, column: Seq<char>)
    ensures
        (so_far + column).subrange(
            so_far.len() as int,
            (so_far.len() + column.len()) as int,
        ) == column,
{
    assert((so_far + column).subrange(
        so_far.len() as int,
        (so_far.len() + column.len()) as int,
    ) =~= column);
}

/// In a terminal line the number stands to the right of three columns, the PID in seven, the
/// name in twenty-four and the status in eighteen, as long as each fits, and the category
/// behind them.
pub proof fn law_terminal_line_has_its_columns(index: nat, entry: EntryModel)
    requires
        decimal::decimal(index + 1).len() <= 3,
        decimal::decimal(entry.pid as nat).len() <= 7,
        entry.name.len() <= 24,
    ensures
        terminal_line(index, entry).subrange(0, 3) == text::padded_left(
            decimal::decimal(index + 1),
            3,
        ),
        terminal_line(index, entry).subrange(3, 9) == ". PID "@,
        terminal_line(index, entry).subrange(9, 16) == text::padded_right(
            decimal::decimal(entry.pid as nat),
            7,
        ),
        terminal_line(index, entry).subrange(17, 41) == text::padded_right(entry.name, 24),
        terminal_line(index, entry).subrange(42, 60) == text::padded_right(
            model::status_key(entry.status),
            18,
        ),
        terminal_line(index, entry).subrange(61, terminal_line(index, entry).len() as int)
            == model::category_key(entry.category),
{
    reveal_strlit(". PID ");
    reveal_strlit(" ");
    lemma_status_key_is_short(entry.status);
    let number = text::padded_left(decimal::decimal(index + 1), 3);
    let pid = text::padded_right(decimal::decimal(entry.pid as nat), 7);
    let name = text::padded_right(entry.name, 24);
    let status = text::padded_right(model::status_key(entry.status), 18);
    let category = model::category_key(entry.category);
    text::law_padding_reaches_the_width(decimal::decimal(index + 1), 3);
    text::law_padding_reaches_the_width(decimal::decimal(entry.pid as nat), 7);
    text::law_padding_reaches_the_width(entry.name, 24);
    text::law_padding_reaches_the_width(model::status_key(entry.status), 18);
    lemma_columns(number, pid, name, status, category);
}

/// Five columns with what stands between them.
proof fn lemma_columns(
    number: Seq<char>,
    pid: Seq<char>,
    name: Seq<char>,
    status: Seq<char>,
    category: Seq<char>,
)
    requires
        number.len() == 3,
        pid.len() == 7,
        name.len() == 24,
        status.len() == 18,
        ". PID "@.len() == 6,
        " "@.len() == 1,
    ensures
        ({
            let line = number + ". PID "@ + pid + " "@ + name + " "@ + status + " "@ + category;
            &&& line.subrange(0, 3) == number
            &&& line.subrange(3, 9) == ". PID "@
            &&& line.subrange(9, 16) == pid
            &&& line.subrange(17, 41) == name
            &&& line.subrange(42, 60) == status
            &&& line.subrange(61, line.len() as int) == category
        }),
{
    let a = number + ". PID "@;
    let b = a + pid;
    let c = b + " "@;
    let d = c + name;
    let e = d + " "@;
    let f = e + status;
    let g = f + " "@;
    let line = g + category;
    assert(number.subrange(0, 3) =~= number);
    lemma_last_column(number, ". PID "@);
    lemma_last_column(a, pid);
    lemma_last_column(c, name);
    lemma_last_column(e, status);
    lemma_last_column(g, category);
    lemma_column_stays(number, ". PID "@, 0, 3);
    lemma_column_stays(a, pid, 0, 3);
    lemma_column_stays(b, " "@, 0, 3);
    lemma_column_stays(c, name, 0, 3);
    lemma_column_stays(d, " "@, 0, 3);
    lemma_column_stays(e, status, 0, 3);
    lemma_column_stays(f, " "@, 0, 3);
    lemma_column_stays(g, category, 0, 3);
    lemma_column_stays(a, pid, 3, 9);
    lemma_column_stays(b, " "@, 3, 9);
    lemma_column_stays(c, name, 3, 9);
    lemma_column_stays(d, " "@, 3, 9);
    lemma_column_stays(e, status, 3, 9);
    lemma_column_stays(f, " "@, 3, 9);
    lemma_column_stays(g, category, 3, 9);
    lemma_column_stays(b, " "@, 9, 16);
    lemma_column_stays(c, name, 9, 16);
    lemma_column_stays(d, " "@, 9, 16);
    lemma_column_stays(e, status, 9, 16);
    lemma_column_stays(f, " "@, 9, 16);
    lemma_column_stays(g, category, 9, 16);
    lemma_column_stays(d, " "@, 17, 41);
    lemma_column_stays(e, status, 17, 41);
    lemma_column_stays(f, " "@, 17, 41);
    lemma_column_stays(g, category, 17, 41);
    lemma_column_stays(f, " "@, 42, 60);
    lemma_column_stays(g, category, 42, 60);
}

/// The key of a status fits its column.
proof fn lemma_status_key_is_short(status: Status)
    ensures
        model::status_key(status).len() <= 18,
{
    reveal_strlit("Owned");
    reveal_strlit("OwnedIdleBrowser");
    reveal_strlit("OwnedIdleTool");
    reveal_strlit("GracePeriod");
    reveal_strlit("Candidate");
    reveal_strlit("SuspectOnly");
}

} // verus!
