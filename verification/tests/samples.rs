use codex_process_guardian::sample::{
    command_line, command_line_size, filetime_to_u64, next_process, process_info, process_started,
    query_process, FileTime, NextProcess, Opened, ProcessTimes,
};
use codex_process_guardian::to_wide;

fn times(creation: u32, kernel: u32, user: u32) -> ProcessTimes {
    ProcessTimes {
        creation: FileTime { low: creation, high: 0 },
        kernel: FileTime { low: kernel, high: 0 },
        user: FileTime { low: user, high: 1 },
    }
}

fn opened(with_times: bool) -> Option<Opened> {
    let times = if with_times { Some(times(9, 2, 3)) } else { None };
    Some(Opened { command_line: "a b".into(), times })
}

#[test]
fn halves_make_up_a_time() {
    assert_eq!(filetime_to_u64(FileTime { low: 5, high: 2 }), 2 * 4_294_967_296 + 5);
    let most = FileTime { low: u32::MAX, high: u32::MAX };
    assert_eq!(filetime_to_u64(most), u64::MAX);
    assert_eq!(process_started(Some(times(9, 0, 0))), Some(9));
    assert_eq!(process_started(None), None);
}

#[test]
fn details_are_for_relevant_processes() {
    let cpu = 4_294_967_296 + 5;
    assert_eq!(query_process(opened(true), true), ("a b".to_string(), 9, cpu));
    assert_eq!(query_process(opened(true), false), (String::new(), 9, 0));
    assert_eq!(query_process(opened(false), true), ("a b".to_string(), 0, 0));
    assert_eq!(query_process(None, true), (String::new(), 0, 0));
    let info = process_info(3, 2, &to_wide("Node.exe"), opened(true));
    assert_eq!((info.pid, info.parent_pid, info.name.as_str()), (3, 2, "Node.exe"));
    assert_eq!((info.command_line.as_str(), info.started, info.cpu_ticks), ("a b", 9, cpu));
    let info = process_info(3, 2, &to_wide("notepad.exe"), opened(true));
    assert_eq!((info.command_line.as_str(), info.started, info.cpu_ticks), ("", 9, 0));
}

#[test]
fn cpu_time_is_capped() {
    let most = FileTime { low: u32::MAX, high: u32::MAX };
    let times = ProcessTimes { creation: most, kernel: most, user: most };
    let opened = Opened { command_line: String::new(), times: Some(times) };
    assert_eq!(query_process(Some(opened), true), (String::new(), u64::MAX, u64::MAX));
}

#[test]
fn list_ends_with_its_own_error() {
    assert_eq!(next_process(true, 18), NextProcess::Found);
    assert_eq!(next_process(false, 18), NextProcess::End);
    assert_eq!(next_process(false, 5), NextProcess::Failed(5));
}

#[test]
fn buffers_for_command_lines_are_limited() {
    let mismatch = -1_073_741_820;
    assert_eq!(command_line_size(mismatch, 100), Some(100));
    assert_eq!(command_line_size(mismatch, 1_048_576), Some(1_048_576));
    assert_eq!(command_line_size(mismatch, 1_048_577), None);
    assert_eq!(command_line_size(mismatch, 0), None);
    assert_eq!(command_line_size(0, 100), None);
}

fn filled(base: usize, at: usize, length: u16, text: &str) -> Vec<u8> {
    let width = usize::BITS as usize / 8;
    let mut buffer = vec![0_u8; width];
    buffer[..2].copy_from_slice(&length.to_ne_bytes());
    buffer.extend((base + at).to_ne_bytes());
    for word in text.encode_utf16() {
        buffer.extend(word.to_ne_bytes());
    }
    buffer
}

#[test]
fn command_line_lies_within_its_buffer() {
    let header = usize::BITS as usize / 4;
    let good = filled(4096, header, 6, "a进b");
    assert_eq!(command_line(0, &good, 4096), "a进b");
    assert_eq!(command_line(1, &good, 4096), "a进b");
    assert_eq!(command_line(-1, &good, 4096), "");
    assert_eq!(command_line(0, &good[..header - 1], 4096), "");
    assert_eq!(command_line(0, &filled(4096, header, 4, "a进b"), 4096), "a进");
    assert_eq!(command_line(0, &filled(4096, header, 8, "a进b"), 4096), "");
    assert_eq!(command_line(0, &filled(4000, 0, 2, "a"), 4096), "");
    assert_eq!(command_line(0, &filled(4096, header + 2, 2, "ab"), 4096), "b");
}
