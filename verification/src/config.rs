//! The configuration file: one `key=value` on a line, `#` in front of a comment.
use vstd::prelude::*;

use crate::decimal::{self, parse_number};
use crate::text::{self, chars_of, lines, lower_chars, same, split_once, string_of, trim};

verus! {

/// The longest interval between two scans, in seconds.
pub const MAX_INTERVAL_SECONDS: u64 = 86_400;

/// The longest threshold, in minutes.
pub const MAX_THRESHOLD_MINUTES: u64 = 43_200;

/// How often the guardian looks, how long it waits, and what it may do by itself.
#[derive(Clone, Copy, Debug)]
pub struct Config {
    pub interval_seconds: u64,
    pub grace_minutes: u64,
    pub owned_browser_idle_minutes: u64,
    pub owned_tool_idle_minutes: u64,
    pub action_terminate: bool,
    pub terminate_owned_idle_browser: bool,
    pub terminate_owned_idle_tool: bool,
}

// ---------------------------------------------------------------------------------------------
// Models
// ---------------------------------------------------------------------------------------------
/// The configuration without a file: report only.
pub open spec fn default_config() -> Config {
    Config {
        interval_seconds: 30,
        grace_minutes: 5,
        owned_browser_idle_minutes: 20,
        owned_tool_idle_minutes: 30,
        action_terminate: false,
        terminate_owned_idle_browser: false,
        terminate_owned_idle_tool: false,
    }
}

/// The number that `value` stands for, or `default` where it stands for none, brought into the
/// range from `low` to `high`.
pub open spec fn limited(value: Seq<char>, default: u64, low: u64, high: u64) -> u64 {
    let wanted = match decimal::number(value, u64::MAX as nat) {
        Some(n) => n as u64,
        None => default,
    };
    if wanted < low {
        low
    } else if wanted > high {
        high
    } else {
        wanted
    }
}

/// `value` says yes: `1`, `true`, `yes` or `on`, in capitals or not.
pub open spec fn says_yes(value: Seq<char>) -> bool {
    let lowered = text::ascii_lower(value);
    lowered == "1"@ || lowered == "true"@ || lowered == "yes"@ || lowered == "on"@
}

/// `config` with one setting replaced. A key that is not known changes nothing.
pub open spec fn with_setting(config: Config, key: Seq<char>, value: Seq<char>) -> Config {
    if key == "interval_seconds"@ {
        Config { interval_seconds: limited(value, 30, 5, MAX_INTERVAL_SECONDS), ..config }
    } else if key == "grace_minutes"@ {
        Config { grace_minutes: limited(value, 5, 1, MAX_THRESHOLD_MINUTES), ..config }
    } else if key == "owned_browser_idle_minutes"@ {
        Config {
            owned_browser_idle_minutes: limited(value, 20, 1, MAX_THRESHOLD_MINUTES),
            ..config
        }
    } else if key == "owned_tool_idle_minutes"@ {
        Config {
            owned_tool_idle_minutes: limited(value, 30, 1, MAX_THRESHOLD_MINUTES),
            ..config
        }
    } else if key == "action"@ {
        Config { action_terminate: text::ascii_lower(value) == "terminate"@, ..config }
    } else if key == "terminate_owned_idle_browser"@ {
        Config { terminate_owned_idle_browser: says_yes(value), ..config }
    } else if key == "terminate_owned_idle_tool"@ {
        Config { terminate_owned_idle_tool: says_yes(value), ..config }
    } else {
        config
    }
}

/// `config` after one line of the file. A blank line, a comment and a line without an equals
/// sign change nothing.
pub open spec fn with_line(config: Config, line: Seq<char>) -> Config {
    let content = text::trimmed(line);
    if content.len() == 0 || content[0] == '#' {
        config
    } else {
        match text::split_at_first(content, '=') {
            Some(parts) => with_setting(config, text::trimmed(parts.0), text::trimmed(parts.1)),
            None => config,
        }
    }
}

/// `config` after the given lines, the first one first.
pub open spec fn with_lines(config: Config, lines: Seq<Seq<char>>) -> Config
    decreases lines.len(),
{
    if lines.len() == 0 {
        config
    } else {
        with_line(with_lines(config, lines.drop_last()), lines.last())
    }
}

/// The configuration that a file says, or the default one where there is no file.
pub open spec fn config_of(file: Option<Seq<char>>) -> Config {
    match file {
        Some(content) => with_lines(default_config(), text::text_lines(content)),
        None => default_config(),
    }
}

/// Every number is in its range.
pub open spec fn in_range(config: Config) -> bool {
    &&& 5 <= config.interval_seconds <= MAX_INTERVAL_SECONDS
    &&& 1 <= config.grace_minutes <= MAX_THRESHOLD_MINUTES
    &&& 1 <= config.owned_browser_idle_minutes <= MAX_THRESHOLD_MINUTES
    &&& 1 <= config.owned_tool_idle_minutes <= MAX_THRESHOLD_MINUTES
}

// ---------------------------------------------------------------------------------------------
// Functions
// ---------------------------------------------------------------------------------------------
impl Default for Config {
    fn default() -> (result: Self)
        ensures
            result == default_config(),
    {
        Config {
            interval_seconds: 30,
            grace_minutes: 5,
            owned_browser_idle_minutes: 20,
            owned_tool_idle_minutes: 30,
            action_terminate: false,
            terminate_owned_idle_browser: false,
            terminate_owned_idle_tool: false,
        }
    }
}

/// Whether `value` says yes.
pub fn parse_bool(value: &[char]) -> (result: bool)
    ensures
        result == says_yes(value@),
{
    let lower = lower_chars(string_of(value).as_str());
    let s = lower.as_slice();
    same(s, "1") || same(s, "true") || same(s, "yes") || same(s, "on")
}

/// The number that `value` stands for, or `default`, brought into the range.
fn parse_limited(value: &[char], default: u64, low: u64, high: u64) -> (result: u64)
    ensures
        result == limited(value@, default, low, high),
{
    let wanted: u64 = match parse_number(value, u64::MAX) {
        Some(n) => n,
        None => default,
    };
    if wanted < low {
        low
    } else if wanted > high {
        high
    } else {
        wanted
    }
}

impl Config {
    /// Replaces one setting.
    fn set(&mut self, key: &[char], value: &[char])
        ensures
            *final(self) == with_setting(*old(self), key@, value@),
    {
        if same(key, "interval_seconds") {
            self.interval_seconds = parse_limited(value, 30, 5, MAX_INTERVAL_SECONDS);
        } else if same(key, "grace_minutes") {
            self.grace_minutes = parse_limited(value, 5, 1, MAX_THRESHOLD_MINUTES);
        } else if same(key, "owned_browser_idle_minutes") {
            self.owned_browser_idle_minutes = parse_limited(value, 20, 1, MAX_THRESHOLD_MINUTES);
        } else if same(key, "owned_tool_idle_minutes") {
            self.owned_tool_idle_minutes = parse_limited(value, 30, 1, MAX_THRESHOLD_MINUTES);
        } else if same(key, "action") {
            let lower = lower_chars(string_of(value).as_str());
            self.action_terminate = same(lower.as_slice(), "terminate");
        } else if same(key, "terminate_owned_idle_browser") {
            self.terminate_owned_idle_browser = parse_bool(value);
        } else if same(key, "terminate_owned_idle_tool") {
            self.terminate_owned_idle_tool = parse_bool(value);
        }
    }

    /// The configuration that a file with the given content says, or the default one where
    /// the file could not be read.
    pub fn load(file: Option<&str>) -> (result: Self)
        ensures
            file matches Some(content) ==> result == config_of(Some(content@)),
            file is None ==> result == config_of(None),
    {
        let mut config = Config::default();
        if let Some(content) = file {
            let all = lines(chars_of(content).as_slice());
            let ghost text_lines = text::text_lines(content@);
            for i in 0..all.len()
                invariant
                    text::char_lists(all@) == text_lines,
                    config == with_lines(default_config(), text_lines.take(i as int)),
            {
                assert(text_lines.take(i + 1).drop_last() =~= text_lines.take(i as int));
                assert(all@[i as int]@ == text_lines[i as int]);
                let line = trim(all[i].as_slice());
                if line.len() > 0 && line[0] != '#' {
                    if let Some((key, value)) = split_once(line.as_slice(), '=') {
                        config.set(trim(key.as_slice()).as_slice(), trim(value.as_slice()).as_slice());
                    }
                }
            }
            assert(text_lines.take(all@.len() as int) =~= text_lines);
        }
        config
    }
}

// ---------------------------------------------------------------------------------------------
// Laws
// ---------------------------------------------------------------------------------------------
proof fn lemma_lines_keep_range(config: Config, lines: Seq<Seq<char>>)
    requires
        in_range(config),
    ensures
        in_range(with_lines(config, lines)),
    decreases lines.len(),
{
    if lines.len() > 0 {
        lemma_lines_keep_range(config, lines.drop_last());
    }
}

/// Whatever the file says, every number ends up in its range.
pub proof fn law_numbers_are_in_range(file: Option<Seq<char>>)
    ensures
        in_range(config_of(file)),
{
    match file {
        Some(content) => {
            lemma_lines_keep_range(default_config(), text::text_lines(content));
        },
        None => {},
    }
}

/// Without a file nothing is ever ended by the guardian itself.
pub proof fn law_default_only_reports()
    ensures
        !config_of(None).action_terminate,
        !config_of(None).terminate_owned_idle_browser,
        !config_of(None).terminate_owned_idle_tool,
{
}

/// The setting of `key` in one line of the file.
pub open spec fn sets(line: Seq<char>, key: Seq<char>) -> bool {
    let content = text::trimmed(line);
    &&& content.len() > 0
    &&& content[0] != '#'
    &&& text::split_at_first(content, '=') matches Some(parts)
    &&& text::trimmed(parts.0) == key
}

/// Automatic cleanup stays off unless some line of the file sets `action`.
pub proof fn law_cleanup_needs_a_setting(content: Seq<char>)
    requires
        forall|i: int|
            0 <= i < text::text_lines(content).len() ==> !sets(
                #[trigger] text::text_lines(content)[i],
                "action"@,
            ),
    ensures
        !config_of(Some(content)).action_terminate,
{
    lemma_action_untouched(default_config(), text::text_lines(content));
}

proof fn lemma_action_untouched(config: Config, lines: Seq<Seq<char>>)
    requires
        forall|i: int| 0 <= i < lines.len() ==> !sets(#[trigger] lines[i], "action"@),
    ensures
        with_lines(config, lines).action_terminate == config.action_terminate,
    decreases lines.len(),
{
    if lines.len() > 0 {
        assert(!sets(lines[lines.len() - 1], "action"@));
        assert forall|i: int| 0 <= i < lines.drop_last().len() implies !sets(
            #[trigger] lines.drop_last()[i],
            "action"@,
        ) by {
            assert(lines.drop_last()[i] == lines[i]);
        }
        lemma_action_untouched(config, lines.drop_last());
    }
}

/// The value that a line gives to the key that it sets.
pub open spec fn value_in(line: Seq<char>) -> Seq<char> {
    match text::split_at_first(text::trimmed(line), '=') {
        Some(parts) => text::trimmed(parts.1),
        None => Seq::empty(),
    }
}

/// Line `k` sets `key`, and no later line does.
pub open spec fn sets_last(lines: Seq<Seq<char>>, key: Seq<char>, k: int) -> bool {
    &&& 0 <= k < lines.len()
    &&& sets(lines[k], key)
    &&& forall|j: int| k < j < lines.len() ==> !sets(#[trigger] lines[j], key)
}

/// No line sets `key`.
pub open spec fn never_set(lines: Seq<Seq<char>>, key: Seq<char>) -> bool {
    forall|j: int| 0 <= j < lines.len() ==> !sets(#[trigger] lines[j], key)
}

/// The keys are all different.
proof fn lemma_keys_differ()
    ensures
        "interval_seconds"@.len() == 16,
        "grace_minutes"@.len() == 13,
        "owned_browser_idle_minutes"@.len() == 26,
        "owned_tool_idle_minutes"@.len() == 23,
        "action"@.len() == 6,
        "terminate_owned_idle_browser"@.len() == 28,
        "terminate_owned_idle_tool"@.len() == 25,
{
    reveal_strlit("interval_seconds");
    reveal_strlit("grace_minutes");
    reveal_strlit("owned_browser_idle_minutes");
    reveal_strlit("owned_tool_idle_minutes");
    reveal_strlit("action");
    reveal_strlit("terminate_owned_idle_browser");
    reveal_strlit("terminate_owned_idle_tool");
}

/// The two configurations agree on the setting of `key`.
spec fn agree_on(a: Config, b: Config, key: Seq<char>) -> bool {
    &&& key == "interval_seconds"@ ==> a.interval_seconds == b.interval_seconds
    &&& key == "grace_minutes"@ ==> a.grace_minutes == b.grace_minutes
    &&& key == "owned_browser_idle_minutes"@ ==> a.owned_browser_idle_minutes
        == b.owned_browser_idle_minutes
    &&& key == "owned_tool_idle_minutes"@ ==> a.owned_tool_idle_minutes
        == b.owned_tool_idle_minutes
    &&& key == "action"@ ==> a.action_terminate == b.action_terminate
    &&& key == "terminate_owned_idle_browser"@ ==> a.terminate_owned_idle_browser
        == b.terminate_owned_idle_browser
    &&& key == "terminate_owned_idle_tool"@ ==> a.terminate_owned_idle_tool
        == b.terminate_owned_idle_tool
}

/// Lines that do not set a key leave its setting alone.
proof fn lemma_later_lines_leave_it(config: Config, lines: Seq<Seq<char>>, key: Seq<char>, from: int)
    requires
        0 <= from <= lines.len(),
        forall|j: int| from <= j < lines.len() ==> !sets(#[trigger] lines[j], key),
    ensures
        agree_on(with_lines(config, lines), with_lines(config, lines.take(from)), key),
    decreases lines.len(),
{
    if from == lines.len() {
        assert(lines.take(from) =~= lines);
    } else {
        let shorter = lines.drop_last();
        assert(!sets(lines[lines.len() - 1], key));
        assert forall|j: int| from <= j < shorter.len() implies !sets(
            #[trigger] shorter[j],
            key,
        ) by {
            assert(shorter[j] == lines[j]);
        }
        lemma_later_lines_leave_it(config, shorter, key, from);
        assert(shorter.take(from) =~= lines.take(from));
    }
}

/// The setting is that of the last line which sets it.
proof fn lemma_last_line_counts(config: Config, lines: Seq<Seq<char>>, key: Seq<char>, k: int)
    requires
        sets_last(lines, key, k),
    ensures
        agree_on(
            with_lines(config, lines),
            with_setting(with_lines(config, lines.take(k)), key, value_in(lines[k])),
            key,
        ),
{
    lemma_later_lines_leave_it(config, lines, key, k + 1);
    assert(lines.take(k + 1).drop_last() =~= lines.take(k));
    assert(lines.take(k + 1).last() == lines[k]);
}

/// Automatic cleanup is on exactly where the last line that sets `action` says `terminate`, in
/// capitals or not, and off where no line sets it.
pub proof fn law_only_terminate_turns_cleanup_on(content: Seq<char>, k: int)
    ensures
        sets_last(text::text_lines(content), "action"@, k) ==> (config_of(
            Some(content),
        ).action_terminate <==> text::ascii_lower(value_in(text::text_lines(content)[k]))
            == "terminate"@),
        never_set(text::text_lines(content), "action"@) ==> !config_of(
            Some(content),
        ).action_terminate,
{
    let lines = text::text_lines(content);
    lemma_keys_differ();
    if sets_last(lines, "action"@, k) {
        lemma_last_line_counts(default_config(), lines, "action"@, k);
    }
    if never_set(lines, "action"@) {
        lemma_later_lines_leave_it(default_config(), lines, "action"@, 0);
        assert(lines.take(0) =~= Seq::empty());
    }
}

/// A file that sets `action` to nothing but `report` leaves automatic cleanup off.
pub proof fn law_report_leaves_cleanup_off(content: Seq<char>)
    requires
        forall|j: int|
            0 <= j < text::text_lines(content).len() && sets(
                #[trigger] text::text_lines(content)[j],
                "action"@,
            ) ==> text::ascii_lower(value_in(text::text_lines(content)[j])) == "report"@,
    ensures
        !config_of(Some(content)).action_terminate,
{
    let lines = text::text_lines(content);
    reveal_strlit("report");
    reveal_strlit("terminate");
    assert("report"@.len() == 6 && "terminate"@.len() == 9);
    lemma_some_last_line(lines, "action"@, lines.len() as int);
    if never_set(lines, "action"@) {
        law_only_terminate_turns_cleanup_on(content, 0);
    } else {
        let k = choose|k: int| #[trigger] sets_last(lines, "action"@, k);
        law_only_terminate_turns_cleanup_on(content, k);
        assert(sets(lines[k], "action"@));
    }
}

/// Either no line sets a key, or one of them is the last to do so.
proof fn lemma_some_last_line(lines: Seq<Seq<char>>, key: Seq<char>, count: int)
    requires
        0 <= count <= lines.len(),
        forall|j: int| count <= j < lines.len() ==> !sets(#[trigger] lines[j], key),
    ensures
        never_set(lines, key) || exists|k: int| #[trigger] sets_last(lines, key, k),
    decreases count,
{
    if count > 0 {
        if sets(lines[count - 1], key) {
            assert(sets_last(lines, key, count - 1));
        } else {
            lemma_some_last_line(lines, key, count - 1);
        }
    }
}

/// `result` is what a setting in numbers comes to: the number in its line brought into the range,
/// or `default` where the line holds no number of 64 bits.
pub open spec fn is_setting(result: u64, value: Seq<char>, default: u64, low: u64, high: u64) -> bool {
    match decimal::number(value, 0xffff_ffff_ffff_ffff) {
        Some(n) => {
            &&& low <= n <= high ==> result == n
            &&& n < low ==> result == low
            &&& n > high ==> result == high
        },
        None => result == default,
    }
}

/// Each number is that of the last line which sets it, brought into its own range, and its
/// default where no line sets it.
pub proof fn law_numbers_are_those_of_the_file(content: Seq<char>, k: int)
    ensures
        ({
            let lines = text::text_lines(content);
            let config = config_of(Some(content));
            let value = value_in(lines[k]);
            &&& sets_last(lines, "interval_seconds"@, k) ==> is_setting(
                config.interval_seconds,
                value,
                30,
                5,
                86_400,
            )
            &&& sets_last(lines, "grace_minutes"@, k) ==> is_setting(
                config.grace_minutes,
                value,
                5,
                1,
                43_200,
            )
            &&& sets_last(lines, "owned_browser_idle_minutes"@, k) ==> is_setting(
                config.owned_browser_idle_minutes,
                value,
                20,
                1,
                43_200,
            )
            &&& sets_last(lines, "owned_tool_idle_minutes"@, k) ==> is_setting(
                config.owned_tool_idle_minutes,
                value,
                30,
                1,
                43_200,
            )
            &&& never_set(lines, "interval_seconds"@) ==> config.interval_seconds == 30
            &&& never_set(lines, "grace_minutes"@) ==> config.grace_minutes == 5
            &&& never_set(lines, "owned_browser_idle_minutes"@)
                ==> config.owned_browser_idle_minutes == 20
            &&& never_set(lines, "owned_tool_idle_minutes"@) ==> config.owned_tool_idle_minutes
                == 30
        }),
{
    let lines = text::text_lines(content);
    lemma_keys_differ();
    lemma_setting_is_the_last(lines, "interval_seconds"@, k);
    lemma_setting_is_the_last(lines, "grace_minutes"@, k);
    lemma_setting_is_the_last(lines, "owned_browser_idle_minutes"@, k);
    lemma_setting_is_the_last(lines, "owned_tool_idle_minutes"@, k);
}

proof fn lemma_setting_is_the_last(lines: Seq<Seq<char>>, key: Seq<char>, k: int)
    ensures
        sets_last(lines, key, k) ==> agree_on(
            with_lines(default_config(), lines),
            with_setting(with_lines(default_config(), lines.take(k)), key, value_in(lines[k])),
            key,
        ),
        never_set(lines, key) ==> agree_on(
            with_lines(default_config(), lines),
            default_config(),
            key,
        ),
{
    if sets_last(lines, key, k) {
        lemma_last_line_counts(default_config(), lines, key, k);
    }
    if never_set(lines, key) {
        lemma_later_lines_leave_it(default_config(), lines, key, 0);
        assert(lines.take(0) =~= Seq::empty());
    }
}

/// A permission is given exactly where the last line that sets it says `1`, `true`, `yes` or
/// `on`, in capitals or not; where no line sets it, it is not.
pub proof fn law_permissions_need_a_yes(content: Seq<char>, k: int)
    ensures
        ({
            let lines = text::text_lines(content);
            let config = config_of(Some(content));
            let word = text::ascii_lower(value_in(lines[k]));
            let yes = word == "1"@ || word == "true"@ || word == "yes"@ || word == "on"@;
            &&& sets_last(lines, "terminate_owned_idle_browser"@, k)
                ==> config.terminate_owned_idle_browser == yes
            &&& sets_last(lines, "terminate_owned_idle_tool"@, k)
                ==> config.terminate_owned_idle_tool == yes
            &&& never_set(lines, "terminate_owned_idle_browser"@)
                ==> !config.terminate_owned_idle_browser
            &&& never_set(lines, "terminate_owned_idle_tool"@) ==> !config.terminate_owned_idle_tool
        }),
{
    let lines = text::text_lines(content);
    lemma_keys_differ();
    lemma_setting_is_the_last(lines, "terminate_owned_idle_browser"@, k);
    lemma_setting_is_the_last(lines, "terminate_owned_idle_tool"@, k);
}

/// A comment, a blank line and a line without an equals sign change nothing, wherever they stand.
pub proof fn law_other_lines_change_nothing(config: Config, line: Seq<char>)
    requires
        text::trimmed(line).len() == 0 || text::trimmed(line)[0] == '#' || !text::trimmed(
            line,
        ).contains('='),
    ensures
        with_line(config, line) == config,
{
    text::trimmed(line).index_of_first_ensures('=');
}

} // verus!
