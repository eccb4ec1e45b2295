use echelon::ftp_reader::{
    get_sorted_files, parse_windows_dir_line, poll_delay_secs, read_file_from_line,
    FtpFileEntry, FtpReaderProgress, FtpReaderState, ReadStep,
};
use echelon::time::UnixTime;

fn entry(name: &str, secs: i64) -> FtpFileEntry {
    FtpFileEntry { name: name.to_string(), modified: UnixTime { secs, nanos: 0 } }
}

fn names(list: &[FtpFileEntry]) -> Vec<String> {
    list.iter().map(|e| e.name.clone()).collect()
}

#[test]
fn windows_listing_line() {
    let e = parse_windows_dir_line("04-05-24  10:30AM       1234 data file.csv  ").unwrap();
    assert_eq!(e.name, "data file.csv");
    assert_eq!(e.modified, UnixTime { secs: 1_712_313_000, nanos: 0 });
    let pm = parse_windows_dir_line("04-05-24  10:30PM  5 b.csv").unwrap();
    assert_eq!(pm.modified, UnixTime { secs: 1_712_356_200, nanos: 0 });
}

#[test]
fn directories_are_skipped() {
    assert!(parse_windows_dir_line("04-05-24  10:30AM       <DIR>          logs").is_none());
    assert!(parse_windows_dir_line("04-05-24  10:30AM       <dir>          logs").is_none());
}

#[test]
fn malformed_listing_lines() {
    assert!(parse_windows_dir_line("04-05-24  10:30AM  12").is_none());
    assert!(parse_windows_dir_line("04-05-24  10:30  12 x.csv").is_none());
    assert!(parse_windows_dir_line("13-45-24  10:30AM  12 x.csv").is_none());
    assert!(parse_windows_dir_line("").is_none());
}

#[test]
fn name_starts_at_the_fourth_word() {
    let e = parse_windows_dir_line("04-05-24  10:30AM  10  0").unwrap();
    assert_eq!(e.name, "0");
    let e = parse_windows_dir_line("01-15-24  10:30AM  1234 5").unwrap();
    assert_eq!(e.name, "5");
    let e = parse_windows_dir_line("01-15-24  10:30AM  1234   my file.csv  ").unwrap();
    assert_eq!(e.name, "my file.csv");
}

#[test]
fn sorted_files_are_stable_by_time() {
    let listing = vec![
        "04-05-24  10:30AM  1 late.csv".to_string(),
        "04-05-24  09:00AM  1 first.csv".to_string(),
        "garbage".to_string(),
        "04-05-24  10:30AM  1 late2.csv".to_string(),
        "04-05-24  09:00AM  <DIR> dir".to_string(),
        "04-04-24  11:00PM  1 earliest.csv".to_string(),
    ];
    let files = get_sorted_files(&listing);
    assert_eq!(names(&files), vec!["earliest.csv", "first.csv", "late.csv", "late2.csv"]);
}

#[test]
fn lines_from_a_given_line() {
    let (n, lines) = read_file_from_line("a\r\nb\nc", 1);
    assert_eq!(n, 3);
    assert_eq!(lines, vec!["b".to_string(), "c".to_string()]);
    assert_eq!(read_file_from_line("a\nb\n", 0), (2, vec!["a".to_string(), "b".to_string()]));
    assert_eq!(read_file_from_line("a\nb\n", 2), (2, Vec::<String>::new()));
    assert_eq!(read_file_from_line("a\nb\n", 9), (2, Vec::<String>::new()));
    assert_eq!(read_file_from_line("", 0), (0, Vec::<String>::new()));
    assert_eq!(read_file_from_line("x\r", 0), (1, vec!["x\r".to_string()]));
    assert_eq!(read_file_from_line("\n\n", 0), (2, vec![String::new(), String::new()]));
}

#[test]
fn default_state() {
    let s = FtpReaderState::default();
    assert!(s.last_file.is_none());
    assert_eq!(s.last_line_index, 0);
}

#[test]
fn first_list_starts_at_first_file() {
    let mut p = FtpReaderProgress::new(FtpReaderState::default());
    assert!(p.current_file().is_none());
    assert!(p.apply_file_list(vec![entry("a", 1), entry("b", 2)]));
    assert_eq!(p.current_file_index, Some(0));
    assert_eq!(p.state.last_file.as_deref(), Some("a"));
    assert_eq!(p.state.last_line_index, 0);
    assert_eq!(p.current_file(), Some((0, "a".to_string(), 0)));
    assert!(!p.apply_file_list(vec![entry("a", 1), entry("b", 2)]));
    assert_eq!(p.current_file_index, Some(0));
}

#[test]
fn saved_file_is_resumed() {
    let st = FtpReaderState { last_file: Some("b".to_string()), last_line_index: 7 };
    let mut p = FtpReaderProgress::new(st);
    assert!(p.apply_file_list(vec![entry("a", 1), entry("b", 2), entry("b", 3)]));
    assert_eq!(p.current_file(), Some((1, "b".to_string(), 7)));
}

#[test]
fn missing_saved_file_restarts() {
    let st = FtpReaderState { last_file: Some("gone".to_string()), last_line_index: 7 };
    let mut p = FtpReaderProgress::new(st);
    assert!(p.apply_file_list(vec![entry("a", 1)]));
    assert_eq!(p.current_file(), Some((0, "a".to_string(), 0)));
    let st2 = FtpReaderState { last_file: Some("gone".to_string()), last_line_index: 7 };
    let mut q = FtpReaderProgress::new(st2);
    q.file_list = vec![entry("x", 1)];
    assert!(q.apply_file_list(vec![]));
    assert!(q.current_file().is_none());
    assert!(q.state.last_file.is_none());
    assert_eq!(q.state.last_line_index, 0);
}

#[test]
fn empty_list_without_saved_file_keeps_line() {
    let st = FtpReaderState { last_file: None, last_line_index: 4 };
    let mut p = FtpReaderProgress::new(st);
    p.file_list = vec![entry("x", 1)];
    assert!(p.apply_file_list(vec![]));
    assert_eq!(p.state.last_line_index, 4);
    assert!(p.current_file_index.is_none());
}

#[test]
fn lines_then_next_file() {
    let mut p = FtpReaderProgress::new(FtpReaderState::default());
    p.apply_file_list(vec![entry("a", 1), entry("b", 2)]);
    p.record_line_forwarded();
    p.record_line_forwarded();
    p.finish_file_lines(0);
    assert_eq!(p.state.last_line_index, 2);
    assert_eq!(p.state.last_file.as_deref(), Some("a"));
    assert!(!p.after_empty_read(0, 3));
    assert_eq!(p.current_file_index, Some(0));
    assert!(p.after_empty_read(0, 2));
    assert_eq!(p.current_file(), Some((1, "b".to_string(), 0)));
    assert!(!p.after_empty_read(1, 0));
    assert_eq!(p.current_file_index, Some(1));
}

#[test]
fn error_stops_reading_until_list_changes() {
    let mut p = FtpReaderProgress::new(FtpReaderState::default());
    p.apply_file_list(vec![entry("a", 1)]);
    p.reset_after_error();
    assert!(p.current_file().is_none());
    assert!(!p.apply_file_list(vec![entry("a", 1)]));
    assert!(p.current_file().is_none());
    assert!(p.apply_file_list(vec![entry("a", 5)]));
    assert_eq!(p.current_file(), Some((0, "a".to_string(), 0)));
}

#[test]
fn poll_delays() {
    assert_eq!(poll_delay_secs(Some(true)), 1);
    assert_eq!(poll_delay_secs(Some(false)), 3);
    assert_eq!(poll_delay_secs(None), 10);
}

#[test]
fn growing_file_keeps_its_lines() {
    let before = "l1\r\nl2\n";
    let after = "l1\r\nl2\nl3\nl4";
    let (n, _) = read_file_from_line(before, 0);
    let (total, new_lines) = read_file_from_line(after, n);
    assert_eq!(total, 4);
    assert_eq!(new_lines, vec!["l3".to_string(), "l4".to_string()]);
}

fn pass(p: &mut FtpReaderProgress, content: &str, out: &mut Vec<String>) -> ReadStep {
    let (idx, _, start) = p.current_file().unwrap();
    let (total, new_lines) = read_file_from_line(content, start);
    let step = p.after_read(idx, total, new_lines.len());
    if step == ReadStep::Forward {
        for line in new_lines {
            out.push(line);
            p.record_line_forwarded();
        }
        p.finish_file_lines(idx);
    }
    step
}

#[test]
fn each_line_is_forwarded_once_in_order() {
    let mut p = FtpReaderProgress::new(FtpReaderState::default());
    p.apply_file_list(vec![entry("a", 1), entry("b", 2)]);
    let mut out = Vec::new();
    assert_eq!(pass(&mut p, "x\ny\n", &mut out), ReadStep::Forward);
    assert_eq!(pass(&mut p, "x\ny\n", &mut out), ReadStep::MovedOn);
    assert_eq!(p.current_file(), Some((1, "b".to_string(), 0)));
    assert_eq!(pass(&mut p, "", &mut out), ReadStep::Wait);
    assert_eq!(pass(&mut p, "z\n", &mut out), ReadStep::Forward);
    assert_eq!(pass(&mut p, "z\nw\n", &mut out), ReadStep::Forward);
    assert_eq!(pass(&mut p, "z\nw\n", &mut out), ReadStep::Wait);
    assert_eq!(out, vec!["x", "y", "z", "w"]);
}
