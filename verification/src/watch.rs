//! The watch: scan, clean up, log what changed, wait.
use vstd::prelude::*;

use crate::config::{self, Config};
use crate::text::{self, join, same_text};

verus! {

/// The result of a wait for an object that was signalled.
pub const WAIT_OBJECT_0: u32 = 0;

/// The result of a wait that failed.
pub const WAIT_FAILED: u32 = 0xffff_ffff;

// ---------------------------------------------------------------------------------------------
// Models
// ---------------------------------------------------------------------------------------------
/// The line to log where the error text goes from `last` to `current`, if any.
pub open spec fn change_line(last: Seq<char>, current: Seq<char>) -> Option<Seq<char>> {
    if current == last {
        None
    } else if current.len() == 0 {
        Some("watch_recovered"@)
    } else {
        Some("watch_error "@ + current)
    }
}

/// The lines that a watch logs for a series of error texts, the first one first.
pub open spec fn logged(errors: Seq<Seq<char>>) -> Seq<Seq<char>>
    decreases errors.len(),
{
    if errors.len() == 0 {
        Seq::empty()
    } else {
        let before = logged(errors.drop_last());
        let last = if errors.len() == 1 {
            Seq::empty()
        } else {
            errors[errors.len() - 2]
        };
        match change_line(last, errors.last()) {
            Some(line) => before.push(line),
            None => before,
        }
    }
}

/// The pause between two scans in milliseconds, below the value that stands for no end.
pub open spec fn pause(config: Config) -> u32 {
    if config.interval_seconds * 1000 > u32::MAX {
        (u32::MAX - 1) as u32
    } else {
        (config.interval_seconds * 1000) as u32
    }
}

/// The error text of a round that could not end some processes.
pub open spec fn failures_told(failures: Seq<Seq<char>>) -> Seq<char> {
    text::joined(failures, " | "@)
}

/// The error text of a round whose scan failed.
pub open spec fn scan_failure_told(error: Seq<char>) -> Seq<char> {
    "scan_failed error="@ + error
}

// ---------------------------------------------------------------------------------------------
// Functions
// ---------------------------------------------------------------------------------------------
/// The error text of one round: what the cleanup could not end, or why the scan failed. It is
/// empty where all went well.
pub fn round_error(round: &Result<Vec<String>, String>) -> (result: String)
    ensures
        round matches Ok(failures) ==> result@ == failures_told(text::strings(failures@)),
        round matches Err(error) ==> result@ == scan_failure_told(error@),
        result@ == match round {
            Ok(failures) => text::joined(text::strings(failures@), " | "@),
            Err(error) => "scan_failed error="@ + error@,
        },
{
    match round {
        Ok(failures) => join(failures, " | "),
        Err(error) => {
            let mut result = "scan_failed error=".to_owned();
            result.append(error.as_str());
            result
        },
    }
}

/// What the watch remembers: the error text of the round before.
pub struct Watch {
    pub last_error: String,
}

impl Watch {
    /// A watch before its first round.
    pub fn new() -> (result: Self)
        ensures
            result.last_error@ == Seq::<char>::empty(),
    {
        Watch { last_error: String::new() }
    }

    /// Takes the error text of one more round, and gives the line to log, if any.
    pub fn observe(&mut self, current: String) -> (result: Option<String>)
        ensures
            final(self).last_error@ == current@,
            match result {
                Some(line) => change_line(old(self).last_error@, current@) == Some(line@),
                None => change_line(old(self).last_error@, current@) is None,
            },
    {
        if same_text(current.as_str(), self.last_error.as_str()) {
            return None;
        }
        let line = if current.as_str().is_empty() {
            "watch_recovered".to_owned()
        } else {
            let mut line = "watch_error ".to_owned();
            line.append(current.as_str());
            line
        };
        self.last_error = current;
        Some(line)
    }
}

/// The pause between two scans in milliseconds.
pub fn timeout_ms(config: &Config) -> (result: u32)
    ensures
        result == pause(*config),
{
    if config.interval_seconds > 4_294_967 {
        u32::MAX - 1
    } else {
        (config.interval_seconds * 1000) as u32
    }
}

/// The result of a wait that ends the watch: the event was set, or the wait failed.
pub open spec fn ends_watch(wait: u32) -> bool {
    wait == WAIT_OBJECT_0 || wait == WAIT_FAILED
}

/// Whether the watch ends, by the result of its wait for the stop event.
pub fn stops(wait: u32) -> (result: bool)
    ensures
        result == ends_watch(wait),
        result == (wait == WAIT_OBJECT_0 || wait == WAIT_FAILED),
{
    wait == WAIT_OBJECT_0 || wait == WAIT_FAILED
}

// ---------------------------------------------------------------------------------------------
// Laws
// ---------------------------------------------------------------------------------------------
/// An error that stays the same is logged once, and so is the return to order.
pub proof fn law_same_error_is_logged_once(errors: Seq<Seq<char>>, again: Seq<char>)
    requires
        errors.len() > 0,
    ensures
        again == errors.last() ==> logged(errors.push(again)) == logged(errors),
        again != errors.last() && again.len() > 0 ==> logged(errors.push(again)) == logged(
            errors,
        ).push("watch_error "@ + again),
        again != errors.last() && again.len() == 0 ==> logged(errors.push(again)) == logged(
            errors,
        ).push("watch_recovered"@),
{
    assert(errors.push(again).drop_last() =~= errors);
}

/// While all goes well nothing is logged.
pub proof fn law_quiet_watch_logs_nothing(errors: Seq<Seq<char>>)
    requires
        forall|i: int| 0 <= i < errors.len() ==> (#[trigger] errors[i]).len() == 0,
    ensures
        logged(errors).len() == 0,
    decreases errors.len(),
{
    if errors.len() > 0 {
        let last = errors[errors.len() - 1];
        assert(last.len() == 0);
        assert forall|i: int| 0 <= i < errors.drop_last().len() implies (
        #[trigger] errors.drop_last()[i]).len() == 0 by {
            assert(errors.drop_last()[i] == errors[i]);
        }
        law_quiet_watch_logs_nothing(errors.drop_last());
        if errors.len() > 1 {
            assert(errors[errors.len() - 2].len() == 0);
            assert(last =~= errors[errors.len() - 2]);
        } else {
            assert(last =~= Seq::empty());
        }
    }
}

/// With the interval of any configuration file the watch waits for a finite time, for as long
/// as the file says.
pub proof fn law_pause_is_the_interval(file: Option<Seq<char>>)
    ensures
        pause(config::config_of(file)) == config::config_of(file).interval_seconds * 1000,
        5_000 <= pause(config::config_of(file)) < u32::MAX,
{
    config::law_numbers_are_in_range(file);
}

/// The pause is the interval in milliseconds as long as that can be told, and never the value that
/// stands for no end.
pub proof fn law_pause_is_finite(config: Config)
    ensures
        config.interval_seconds <= 4_294_967 ==> pause(config) == config.interval_seconds * 1000,
        config.interval_seconds > 4_294_967 ==> pause(config) == 0xffff_fffe,
{
}

/// A watch that starts with an error logs it, and one that starts well logs nothing.
pub proof fn law_first_error_is_logged(error: Seq<char>)
    ensures
        error.len() > 0 ==> logged(seq![error]) == seq!["watch_error "@ + error],
        error.len() == 0 ==> logged(seq![error]).len() == 0,
        logged(Seq::empty()).len() == 0,
{
    reveal_with_fuel(logged, 2);
    assert(seq![error].drop_last() =~= Seq::empty());
    if error.len() == 0 {
        assert(error =~= Seq::empty());
    } else {
        assert(logged(seq![error]) =~= seq!["watch_error "@ + error]);
    }
}

/// The watch goes on after every result of its wait but the least, which says that the event was
/// set, and the greatest, which says that the wait failed.
pub proof fn law_watch_goes_on_between(wait: u32)
    ensures
        ends_watch(wait) <==> !(0 < wait < 0xffff_ffff),
{
}

/// The error text of a round is empty where nothing failed. It tells each failure, with a bar
/// before all but the first, or the error of the scan behind a word that says so.
pub proof fn law_round_tells_its_failures(
    failures: Seq<Seq<char>>,
    failure: Seq<char>,
    error: Seq<char>,
)
    ensures
        failures_told(Seq::empty()).len() == 0,
        failures_told(seq![failure]) == failure,
        failures.len() > 0 ==> failures_told(failures.push(failure)) == failures_told(failures)
            + seq![' ', '|', ' '] + failure,
        scan_failure_told(error).len() == error.len() + 18,
        scan_failure_told(error).skip(18) == error,
        scan_failure_told(error).take(18) == "scan_failed error="@,
{
    reveal_strlit(" | ");
    reveal_strlit("scan_failed error=");
    assert(" | "@ =~= seq![' ', '|', ' ']);
    text::law_joining_goes_part_by_part(failures, failure, " | "@);
    assert("scan_failed error="@.len() == 18);
    assert(scan_failure_told(error).skip(18) =~= error);
    assert(scan_failure_told(error).take(18) =~= "scan_failed error="@);
}

} // verus!
