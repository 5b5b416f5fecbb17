//! The guardian: where its files are and how it is configured.
use std::path::PathBuf;

use vstd::prelude::*;

use crate::config::{self, Config};
use crate::decimal::{self, to_decimal};
use crate::text;

verus! {

/// `std::path::PathBuf`, a file path. Nothing is claimed of it: it is carried, never read.
#[verifier::external_type_specification]
#[verifier::external_body]
pub struct ExPathBuf(PathBuf);

/// The files that the guardian uses.
#[derive(Debug)]
pub struct Paths {
    pub data_dir: PathBuf,
    pub state: PathBuf,
    pub log: PathBuf,
    pub config: PathBuf,
}

/// The guardian.
pub struct Guardian {
    pub paths: Paths,
    pub config: Config,
}

/// The line of a message in the log.
pub open spec fn log_line(now: u64, message: Seq<char>) -> Seq<char> {
    decimal::decimal(now as nat) + " "@ + message + "\n"@
}

/// A line of the log gives its time back, and behind the first space its message with the end of
/// the line.
pub proof fn law_log_line_reads_back(now: u64, message: Seq<char>)
    ensures
        text::split_at_first(log_line(now, message), ' ') == Some(
            (decimal::decimal(now as nat), message.push('\n')),
        ),
{
    let front = decimal::decimal(now as nat);
    let whole = log_line(now, message);
    reveal_strlit(" ");
    reveal_strlit("\n");
    decimal::lemma_decimal_is_digits(now as nat);
    whole.index_of_first_ensures(' ');
    assert(whole[front.len() as int] == ' ');
    let at = whole.index_of_first(' ')->0;
    if at < front.len() {
        assert(whole[at] == front[at]);
        assert(decimal::is_digit(front[at]));
    }
    if at > front.len() {
        assert(whole.take(at)[front.len() as int] == ' ');
    }
    assert(whole.take(at) =~= front);
    assert(whole.skip(at + 1) =~= message.push('\n'));
}

impl Guardian {
    /// A guardian that uses the given files, configured by the content of the configuration
    /// file, or by default where that file could not be read.
    pub fn new(paths: Paths, config_file: Option<&str>) -> (result: Self)
        ensures
            result.paths == paths,
            config_file matches Some(content) ==> result.config == config::config_of(
                Some(content@),
            ),
            config_file is None ==> result.config == config::config_of(None),
    {
        let config = Config::load(config_file);
        Guardian { paths, config }
    }

    /// The line that the log gets for a message at `now`.
    pub fn log(&self, now: u64, message: &str) -> (result: String)
        ensures
            result@ == log_line(now, message@),
            result@ == decimal::decimal(now as nat) + " "@ + message@ + "\n"@,
    {
        let mut result = to_decimal(now);
        result.append(" ");
        result.append(message);
        result.append("\n");
        result
    }
}

} // verus!
