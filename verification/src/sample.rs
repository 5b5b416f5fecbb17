//! From what the system says of one process to a [`ProcessInfo`].
use vstd::prelude::*;

use crate::classify::{self, is_relevant_process_name};
use crate::model::ProcessInfo;
use crate::text;
use crate::wide::{self, decode_utf16_bytes, read_native, wide_z_to_string};

verus! {

/// The error with which the system ends the list of processes.
pub const ERROR_NO_MORE_FILES: u32 = 18;

/// The status with which the system asks for a larger buffer.
pub const STATUS_INFO_LENGTH_MISMATCH: i32 = -1_073_741_820;

/// The largest buffer that is offered for a command line.
pub const MAX_COMMAND_LINE_BYTES: u32 = 1_048_576;

/// A time, or a length of time, in units of 100 ns, in two halves.
#[derive(Clone, Copy, Debug)]
pub struct FileTime {
    pub low: u32,
    pub high: u32,
}

/// The times of one process.
#[derive(Clone, Copy, Debug)]
pub struct ProcessTimes {
    pub creation: FileTime,
    pub kernel: FileTime,
    pub user: FileTime,
}

/// What a process that could be opened says: its command line, and its times where the system
/// gives them.
pub struct Opened {
    pub command_line: String,
    pub times: Option<ProcessTimes>,
}

// ---------------------------------------------------------------------------------------------
// Times
// ---------------------------------------------------------------------------------------------
/// The number that the two halves make up.
pub open spec fn file_time(value: FileTime) -> u64 {
    (value.high * 0x1_0000_0000 + value.low) as u64
}

/// The number that the two halves make up.
pub fn filetime_to_u64(value: FileTime) -> (result: u64)
    ensures
        result == file_time(value),
        result == value.high * 0x1_0000_0000 + value.low,
{
    (value.high as u64) * 0x1_0000_0000 + value.low as u64
}

/// The creation time of a process, where the system gives its times.
pub fn process_started(times: Option<ProcessTimes>) -> (result: Option<u64>)
    ensures
        result == match times {
            Some(times) => Some(file_time(times.creation)),
            None => None,
        },
{
    match times {
        Some(times) => Some(filetime_to_u64(times.creation)),
        None => None,
    }
}

/// The command line that is kept of a process: none without details, and none where it could
/// not be opened.
pub open spec fn shown_command_line(opened: Option<Opened>, details: bool) -> Seq<char> {
    match opened {
        Some(opened) => if details {
            opened.command_line@
        } else {
            Seq::empty()
        },
        None => Seq::empty(),
    }
}

/// The creation time of a process; zero where the system does not give it.
pub open spec fn shown_start(opened: Option<Opened>) -> u64 {
    match opened {
        Some(opened) => match opened.times {
            Some(times) => file_time(times.creation),
            None => 0,
        },
        None => 0,
    }
}

/// The CPU time that is kept of a process, in the kernel and outside of it together, capped at
/// the largest number of 64 bits; zero without details and where the system does not give it.
pub open spec fn shown_ticks(opened: Option<Opened>, details: bool) -> u64 {
    match opened {
        Some(opened) => match opened.times {
            Some(times) => if !details {
                0
            } else if file_time(times.kernel) + file_time(times.user) > u64::MAX {
                u64::MAX
            } else {
                (file_time(times.kernel) + file_time(times.user)) as u64
            },
            None => 0,
        },
        None => 0,
    }
}

/// The command line, the creation time and the CPU time of a process. A process that could not
/// be opened shows none of them; without `include_details` only the creation time is shown.
pub fn query_process(opened: Option<Opened>, include_details: bool) -> (result: (String, u64, u64))
    ensures
        result.0@ == shown_command_line(opened, include_details),
        result.1 == shown_start(opened),
        result.2 == shown_ticks(opened, include_details),
{
    match opened {
        None => (String::new(), 0, 0),
        Some(opened) => {
            let command_line = if include_details {
                opened.command_line
            } else {
                String::new()
            };
            match opened.times {
                None => (command_line, 0, 0),
                Some(times) => {
                    let cpu: u64 = if include_details {
                        filetime_to_u64(times.kernel).saturating_add(filetime_to_u64(times.user))
                    } else {
                        0
                    };
                    (command_line, filetime_to_u64(times.creation), cpu)
                },
            }
        },
    }
}

// ---------------------------------------------------------------------------------------------
// The list of processes
// ---------------------------------------------------------------------------------------------
/// One process of the list: its name is that of its executable, a text in UTF-16 with a zero
/// behind it. The details are kept where the name is relevant.
pub fn process_info(
    pid: u32,
    parent_pid: u32,
    executable: &[u16],
    opened: Option<Opened>,
) -> (result: ProcessInfo)
    ensures
        result.pid == pid,
        result.parent_pid == parent_pid,
        result.name@ == wide::utf16_text(wide::up_to_zero(executable@)),
        ({
            let details = classify::one_of(
                text::ascii_lower(result.name@),
                classify::relevant_names(),
            );
            &&& result.command_line@ == shown_command_line(opened, details)
            &&& result.started == shown_start(opened)
            &&& result.cpu_ticks == shown_ticks(opened, details)
        }),
{
    let name = wide_z_to_string(executable);
    let details = is_relevant_process_name(name.as_str());
    let (command_line, started, cpu_ticks) = query_process(opened, details);
    ProcessInfo { pid, parent_pid, name, command_line, started, cpu_ticks }
}

/// What follows an attempt to read the next process of the list.
#[derive(Clone, Copy, Debug, PartialEq, Eq, Structural)]
pub enum NextProcess {
    /// There is one more.
    Found,
    /// The list is complete.
    End,
    /// The list broke off with an error.
    Failed(u32),
}

/// What an attempt to read the next process says of the list.
pub open spec fn follows(found: bool, last_error: u32) -> NextProcess {
    if found {
        NextProcess::Found
    } else if last_error == ERROR_NO_MORE_FILES {
        NextProcess::End
    } else {
        NextProcess::Failed(last_error)
    }
}

/// What follows an attempt to read the next process of the list: whether there was one, and
/// else the last error.
pub fn next_process(found: bool, last_error: u32) -> (result: NextProcess)
    ensures
        result == follows(found, last_error),
        result == if found {
            NextProcess::Found
        } else if last_error == ERROR_NO_MORE_FILES {
            NextProcess::End
        } else {
            NextProcess::Failed(last_error)
        },
{
    if found {
        NextProcess::Found
    } else if last_error == ERROR_NO_MORE_FILES {
        NextProcess::End
    } else {
        NextProcess::Failed(last_error)
    }
}

// ---------------------------------------------------------------------------------------------
// Command lines
// ---------------------------------------------------------------------------------------------
/// An empty buffer was refused for its length, and the size that is asked for is one that may be
/// offered.
pub open spec fn asks_for_room(status: i32, required: u32) -> bool {
    status == STATUS_INFO_LENGTH_MISMATCH && 0 < required <= MAX_COMMAND_LINE_BYTES
}

/// How large a buffer to offer for a command line, by the reply to an empty one: its status,
/// and the size that it asks for.
pub fn command_line_size(status: i32, required: u32) -> (result: Option<usize>)
    ensures
        result is Some <==> asks_for_room(status, required),
        match result {
            Some(size) => status == STATUS_INFO_LENGTH_MISMATCH && 0 < required
                <= MAX_COMMAND_LINE_BYTES && size == required,
            None => status != STATUS_INFO_LENGTH_MISMATCH || required == 0 || required
                > MAX_COMMAND_LINE_BYTES,
        },
{
    if status != STATUS_INFO_LENGTH_MISMATCH || required == 0 || required > MAX_COMMAND_LINE_BYTES {
        None
    } else {
        Some(required as usize)
    }
}

/// The number of bytes of an address.
pub open spec fn address_bytes() -> nat {
    if usize::BITS == 64 {
        8
    } else {
        4
    }
}

/// The length of the text in bytes, which the first two bytes of the buffer hold.
pub open spec fn text_length(buffer: Seq<u8>) -> nat {
    wide::native_value(buffer.subrange(0, 2))
}

/// The address of the text, which stands in the buffer behind two lengths.
pub open spec fn text_address(buffer: Seq<u8>) -> nat {
    wide::native_value(buffer.subrange(address_bytes() as int, 2 * address_bytes() as int))
}

/// The buffer, which begins at the address `base`, holds the text that it says it holds.
pub open spec fn holds_text(buffer: Seq<u8>, base: nat) -> bool {
    &&& buffer.len() >= 2 * address_bytes()
    &&& base <= text_address(buffer)
    &&& text_address(buffer) + text_length(buffer) <= base + buffer.len()
}

/// The command line that a filled buffer holds. The buffer begins at the address `base` with
/// the length and the address of the text, which must lie within the buffer. Where the status
/// is an error, or the buffer does not hold the text, the command line is empty.
pub fn command_line(status: i32, buffer: &[u8], base: usize) -> (result: String)
    requires
        base + buffer@.len() <= usize::MAX,
    ensures
        result@ == if status >= 0 && holds_text(buffer@, base as nat) {
            let from = text_address(buffer@) - base;
            wide::utf16_text(
                wide::native_words(buffer@.subrange(from, from + text_length(buffer@))),
            )
        } else {
            Seq::empty()
        },
{
    let width: usize = if usize::BITS == 64 {
        8
    } else {
        4
    };
    if status < 0 || buffer.len() < 2 * width {
        return String::new();
    }
    let length: u64 = read_native(buffer, 0, 2);
    let address: u64 = read_native(buffer, width, width);
    proof {
        wide::lemma_value_fits(buffer@.subrange(0, 2));
    }
    assert(length == text_length(buffer@) && length <= 0xffff);
    assert(address == text_address(buffer@));
    let end: u64 = (base + buffer.len()) as u64;
    if address < base as u64 || address > end || length > end - address {
        return String::new();
    }
    let from: usize = (address - base as u64) as usize;
    let mut bytes: Vec<u8> = Vec::new();
    let count: usize = length as usize;
    for i in 0..count
        invariant
            from + count <= buffer@.len(),
            buffer@.len() <= usize::MAX,
            bytes@ == buffer@.subrange(from as int, from + i),
    {
        bytes.push(buffer[from + i]);
        assert(bytes@ =~= buffer@.subrange(from as int, from + i + 1));
    }
    decode_utf16_bytes(bytes.as_slice())
}

/// A time in two halves is the number with the one above the other, so times are ordered by their
/// upper halves first.
pub proof fn law_times_are_ordered_by_their_halves(a: FileTime, b: FileTime)
    ensures
        file_time(a) % 0x1_0000_0000 == a.low,
        file_time(a) / 0x1_0000_0000 == a.high,
        a.high < b.high ==> file_time(a) < file_time(b),
        a.high == b.high ==> (file_time(a) < file_time(b) <==> a.low < b.low),
{
}

/// Without details nothing is kept but the creation time, and a process that could not be opened
/// shows nothing at all.
pub proof fn law_details_are_asked_for(opened: Opened, details: bool)
    ensures
        shown_command_line(None, details).len() == 0,
        shown_start(None) == 0,
        shown_ticks(None, details) == 0,
        shown_command_line(Some(opened), false).len() == 0,
        shown_ticks(Some(opened), false) == 0,
        shown_command_line(Some(opened), true) == opened.command_line@,
        opened.times is None ==> shown_start(Some(opened)) == 0 && shown_ticks(Some(opened), true)
            == 0,
        opened.times matches Some(times) ==> {
            let sum = file_time(times.kernel) + file_time(times.user);
            &&& shown_start(Some(opened)) == file_time(times.creation)
            &&& sum <= 0xffff_ffff_ffff_ffff ==> shown_ticks(Some(opened), true) == sum
            &&& sum > 0xffff_ffff_ffff_ffff ==> shown_ticks(Some(opened), true)
                == 0xffff_ffff_ffff_ffff
        },
{
}

/// A buffer holds its text exactly where it has room for the two words in front and the text, from
/// its address on and for its length, lies between the first byte of the buffer and the last.
pub proof fn law_text_lies_within_its_buffer(buffer: Seq<u8>, base: nat)
    requires
        buffer.len() >= 16,
        usize::BITS == 64,
    ensures
        ({
            let length = wide::native_value(buffer.subrange(0, 2));
            let address = wide::native_value(buffer.subrange(8, 16));
            holds_text(buffer, base) <==> base <= address && address + length - base
                <= buffer.len()
        }),
        !holds_text(buffer.take(15), base),
{
}

/// The list is complete where there is no further process and the error says so, which is number
/// 18. With any other error it broke off, and that error is told.
pub proof fn law_list_ends_with_its_error(last_error: u32)
    ensures
        follows(true, last_error) == NextProcess::Found,
        follows(false, last_error) == NextProcess::End <==> last_error == 18,
        last_error != 18 ==> follows(false, last_error) == NextProcess::Failed(last_error),
{
}

/// A buffer is offered where an empty one was refused with the status 0xc0000004, and only if it
/// is to hold at least one byte and at most a mebibyte.
pub proof fn law_room_is_limited(status: i32, required: u32)
    ensures
        asks_for_room(status, required) <==> status == 0xc000_0004 - 0x1_0000_0000 && 1 <= required
            <= 1024 * 1024,
{
}

} // verus!
