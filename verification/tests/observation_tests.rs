use echelon::observation::{
    checked_parse_wear_reading_from_csv_file, checked_parse_wear_reading_from_csv_line,
    list_files_by_date, observe_start_index, parse_wear_reading_from_csv_file,
    parse_wear_reading_from_csv_line, CsvError,
};
use echelon::time::UnixTime;

fn csv_line(time: &str, first: &str) -> String {
    let mut s = format!("1,dev,x,{},y,z", time);
    for i in 0..102 {
        if i == 0 {
            s.push_str(&format!(",{}", first));
        } else {
            s.push_str(&format!(", {} ", i));
        }
    }
    s
}

fn names() -> (String, String, String, String) {
    ("工場".to_string(), "混合".to_string(), "E1".to_string(), "1.0".to_string())
}

#[test]
fn csv_line_is_read_as_japan_time() {
    let (f, m, e, v) = names();
    let line = csv_line(" 04/01/2024 09:00:00 ", "-7");
    let r = parse_wear_reading_from_csv_line(&line, f, m, e, v).unwrap();
    assert_eq!(r.time, UnixTime { secs: 1_711_929_600, nanos: 0 });
    assert_eq!(r.counts.len(), 102);
    assert_eq!(r.counts[0], -7);
    assert_eq!(r.counts[1], 1);
    assert_eq!(r.counts[101], 101);
    assert_eq!(r.facility_name, "工場");
    assert_eq!(r.machine_type, "混合");
    assert_eq!(r.equipment_id, "E1");
    assert_eq!(r.equipment_version, "1.0");
}

#[test]
fn csv_line_with_bad_time() {
    let (f, m, e, v) = names();
    let line = csv_line("2024-04-01 09:00", "1");
    assert_eq!(parse_wear_reading_from_csv_line(&line, f, m, e, v).unwrap_err(), CsvError::InvalidTime);
}

#[test]
fn csv_line_with_bad_count() {
    let (f, m, e, v) = names();
    let line = csv_line("04/01/2024 09:00:00", "1.5");
    assert_eq!(parse_wear_reading_from_csv_line(&line, f, m, e, v).unwrap_err(), CsvError::InvalidNumber);
    let (f, m, e, v) = names();
    let big = csv_line("04/01/2024 09:00:00", "2147483648");
    assert_eq!(parse_wear_reading_from_csv_line(&big, f, m, e, v).unwrap_err(), CsvError::InvalidNumber);
}

#[test]
fn csv_line_with_too_few_fields_is_refused() {
    let (f, m, e, v) = names();
    assert!(checked_parse_wear_reading_from_csv_line("a,b,c", f, m, e, v).is_none());
    let (f, m, e, v) = names();
    assert!(checked_parse_wear_reading_from_csv_line("a,b,c,04/01/2024 09:00:00,x,y,1,2", f, m, e, v).is_none());
    let (f, m, e, v) = names();
    let bad_time_short = "a,b,c,never,x,y,1";
    assert_eq!(
        checked_parse_wear_reading_from_csv_line(bad_time_short, f, m, e, v).map(|r| r.unwrap_err()),
        Some(CsvError::InvalidTime)
    );
}

#[test]
fn csv_file_skips_header_and_bad_lines() {
    let (f, m, e, v) = names();
    let content = format!(
        "{}\r\n{}\r\nnot,a,reading,line\n{}\n",
        csv_line("04/01/2024 09:00:00", "1"),
        csv_line("04/01/2024 09:00:00", "2"),
        csv_line("04/01/2024 09:00:01", "oops")
    );
    let r = parse_wear_reading_from_csv_file(&content, f, m, e, v).unwrap();
    assert_eq!(r.len(), 1);
    assert_eq!(r[0].counts[0], 2);

    let (f, m, e, v) = names();
    let content = format!(
        "header\n{}\n{}\n{}",
        csv_line("04/01/2024 09:00:00", "2"),
        csv_line("04/01/2024 09:00:01", "oops"),
        csv_line("04/01/2024 09:00:02", "3")
    );
    let rs = parse_wear_reading_from_csv_file(&content, f, m, e, v).unwrap();
    assert_eq!(rs.len(), 2);
    assert_eq!(rs[0].counts[0], 2);
    assert_eq!(rs[1].counts[0], 3);
    assert_eq!(rs[1].time, UnixTime { secs: 1_711_929_602, nanos: 0 });
}

#[test]
fn empty_csv_file() {
    let (f, m, e, v) = names();
    assert_eq!(parse_wear_reading_from_csv_file("", f, m, e, v).unwrap_err(), CsvError::EmptyCsv);
}

#[test]
fn csv_file_without_readings() {
    let (f, m, e, v) = names();
    assert_eq!(
        parse_wear_reading_from_csv_file("header only\n", f, m, e, v).unwrap_err(),
        CsvError::NoReadings
    );
}

#[test]
fn csv_file_with_short_line_is_refused() {
    let (f, m, e, v) = names();
    let content = format!("header\n{}\nshort\n", csv_line("04/01/2024 09:00:00", "2"));
    assert!(checked_parse_wear_reading_from_csv_file(&content, f, m, e, v).is_none());
    let (f, m, e, v) = names();
    let fine = format!("short header\n{}\n", csv_line("04/01/2024 09:00:00", "2"));
    assert_eq!(checked_parse_wear_reading_from_csv_file(&fine, f, m, e, v).unwrap().unwrap().len(), 1);
}

#[test]
fn listing_names_are_sorted() {
    let listing = vec![
        "-rw-r--r-- 1 ftp ftp 120 Apr 02 10:00 2024-04-02.csv".to_string(),
        "-rw-r--r-- 1 ftp ftp 120 Apr 01 10:00 2024-04-01 part b.csv".to_string(),
        "-rw-r--r-- 1 ftp ftp 120 Apr 01 10:00   2024-04-01  part   a.csv".to_string(),
        "-rw-r--r-- 1 ftp ftp 120 Apr 01 10:00".to_string(),
    ];
    let names = list_files_by_date(&listing);
    assert_eq!(
        names,
        vec![
            "".to_string(),
            "2024-04-01 part a.csv".to_string(),
            "2024-04-01 part b.csv".to_string(),
            "2024-04-02.csv".to_string(),
        ]
    );
}

#[test]
fn listing_sort_is_by_code_point() {
    let listing = vec![
        "a b c d e f g h b".to_string(),
        "a b c d e f g h B".to_string(),
        "a b c d e f g h ab".to_string(),
        "a b c d e f g h a".to_string(),
    ];
    assert_eq!(list_files_by_date(&listing), vec!["B", "a", "ab", "b"]);
}

#[test]
fn start_index_after_last_file() {
    let files: Vec<String> = vec!["a".into(), "b".into(), "c".into()];
    assert_eq!(observe_start_index(&files, "b", false), 2);
    assert_eq!(observe_start_index(&files, "c", false), 3);
    assert_eq!(observe_start_index(&files, "zzz", false), 0);
    assert_eq!(observe_start_index(&files, "a", true), 2);
    assert_eq!(observe_start_index(&Vec::new(), "a", false), 0);
}
