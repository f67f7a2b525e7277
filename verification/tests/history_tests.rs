use chrono::{Datelike, Offset, Timelike};
use mush::history::{escape_field, header_string, log_string, HistoryEntry};
use mush::timestamp::Timestamp;

fn ts() -> Timestamp {
    Timestamp::new(2021, 6, 7, 12, 34, 56, 123_456_000, -300).unwrap()
}

fn entry(line: &str, cwd: Option<&str>, fallback: bool) -> HistoryEntry {
    HistoryEntry {
        session_time: ts(),
        command_time: Timestamp::new(2021, 6, 7, 12, 35, 0, 0, -300).unwrap(),
        line: String::from(line),
        cwd: cwd.map(String::from),
        fallback_mode: fallback,
    }
}

#[test]
fn header_names_the_five_columns() {
    assert_eq!(
        header_string(),
        "Session started,Command started,Command,Current directory,Fallback mode\n"
    );
}

#[test]
fn plain_fields_stay_unquoted() {
    assert_eq!(escape_field("ls -la"), "ls -la");
    assert_eq!(escape_field(""), "");
}

#[test]
fn fields_with_delimiters_are_quoted() {
    assert_eq!(escape_field("a,b"), "\"a,b\"");
    assert_eq!(escape_field("say \"hi\""), "\"say \"\"hi\"\"\"");
    assert_eq!(escape_field("line\nbreak"), "\"line\nbreak\"");
    assert_eq!(escape_field("cr\rhere"), "\"cr\rhere\"");
}

#[test]
fn row_has_five_fields_in_order() {
    let e = entry("ls -la", Some("/home/u"), false);
    let row = e.row_string();
    assert_eq!(
        row,
        "2021-06-07T12:34:56.123456-05:00,2021-06-07T12:35:00-05:00,ls -la,/home/u,false\n"
    );
}

#[test]
fn missing_directory_leaves_the_field_empty() {
    let e = entry("pwd", None, true);
    let row = e.row_string();
    assert_eq!(
        row,
        "2021-06-07T12:34:56.123456-05:00,2021-06-07T12:35:00-05:00,pwd,,true\n"
    );
}

#[test]
fn first_write_carries_the_header() {
    let e = entry("ls", None, false);
    let fresh = log_string(&e, false);
    assert!(fresh.starts_with("Session started,"));
    assert!(fresh.ends_with(&e.row_string()));
}

#[test]
fn later_writes_do_not_repeat_the_header() {
    let e = entry("ls", None, false);
    let appended = log_string(&e, true);
    assert_eq!(appended, e.row_string());
}

#[test]
fn n_writes_to_a_fresh_log_give_one_header_and_n_rows() {
    let entries = [
        entry("ls", Some("/"), false),
        entry("echo a,b", None, false),
        entry("pwd", Some("/tmp"), true),
    ];
    let mut file = String::new();
    for e in &entries {
        let already_exists = !file.is_empty();
        file.push_str(&log_string(e, already_exists));
    }
    let expected: String = String::from(
        "Session started,Command started,Command,Current directory,Fallback mode\n",
    ) + &entries[0].row_string()
        + &entries[1].row_string()
        + &entries[2].row_string();
    assert_eq!(file, expected);
    assert_eq!(file.matches("Session started").count(), 1);
}

#[test]
fn rows_match_what_the_csv_crate_writes() {
    let cases = [
        entry("ls -la", Some("/home/u"), false),
        entry("echo a,b", Some("/with,comma"), true),
        entry("say \"hi\"", None, false),
        entry("multi\nline", Some("/"), true),
    ];
    for e in &cases {
        let mut wtr = csv::WriterBuilder::new()
            .has_headers(false)
            .from_writer(Vec::new());
        wtr.write_record(&[
            e.session_time.render(),
            e.command_time.render(),
            e.line.clone(),
            e.cwd.clone().unwrap_or_default(),
            String::from(if e.fallback_mode { "true" } else { "false" }),
        ])
        .unwrap();
        let bytes = wtr.into_inner().unwrap();
        let reference = String::from_utf8(bytes).unwrap();
        assert_eq!(e.row_string(), reference);
    }
}

#[test]
fn rows_parse_back_with_the_csv_crate() {
    let e = entry("echo a,b \"quoted\"", Some("/home/u"), true);
    let row = e.row_string();
    let mut rdr = csv::ReaderBuilder::new()
        .has_headers(false)
        .from_reader(row.as_bytes());
    let record = rdr.records().next().unwrap().unwrap();
    assert_eq!(&record[0], "2021-06-07T12:34:56.123456-05:00");
    assert_eq!(&record[1], "2021-06-07T12:35:00-05:00");
    assert_eq!(&record[2], "echo a,b \"quoted\"");
    assert_eq!(&record[3], "/home/u");
    assert_eq!(&record[4], "true");
}

#[test]
fn round_trip_through_csv_and_chrono_reproduces_the_fields() {
    let e = entry("grep \"a,b\" file.txt", Some("/home/u"), false);
    let row = e.row_string();
    let mut rdr = csv::ReaderBuilder::new()
        .has_headers(false)
        .from_reader(row.as_bytes());
    let record = rdr.records().next().unwrap().unwrap();
    let st = chrono::DateTime::parse_from_rfc3339(&record[0]).unwrap();
    let ct = chrono::DateTime::parse_from_rfc3339(&record[1]).unwrap();
    assert_eq!(st.year(), 2021);
    assert_eq!(st.month(), 6);
    assert_eq!(st.day(), 7);
    assert_eq!(st.hour(), 12);
    assert_eq!(st.minute(), 34);
    assert_eq!(st.second(), 56);
    assert_eq!(st.timestamp_subsec_micros(), 123_456);
    assert_eq!(st.offset().fix().local_minus_utc(), -300 * 60);
    assert_eq!(ct.minute(), 35);
    assert_eq!(&record[2], "grep \"a,b\" file.txt");
    assert_eq!(&record[3], "/home/u");
    assert_eq!(&record[4], "false");
}

#[test]
fn log_file_has_its_well_known_name() {
    assert_eq!(mush::history::history_file_name_str(), ".mush_history.csv");
}
