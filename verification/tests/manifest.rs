use csv_pg_schema::error::Error;
use csv_pg_schema::location::{base_dir, directory, pick_path, resolve};
use csv_pg_schema::manifest::{date_from_path, is_instant, parse, synthetic_month};

fn listed(text: &str) -> Vec<(String, String)> {
    match parse("list.txt", text) {
        Ok(entries) => entries.into_iter().map(|e| (e.source, e.at)).collect(),
        Err(e) => panic!("{}", e.describe()),
    }
}

fn pairs(items: &[(&str, &str)]) -> Vec<(String, String)> {
    items.iter().map(|(s, a)| (s.to_string(), a.to_string())).collect()
}

fn fault(text: &str) -> (usize, String) {
    match parse("d/list.txt", text) {
        Err(Error::Manifest { path, line, message }) => {
            assert_eq!(path, "d/list.txt");
            (line, message)
        }
        _ => unreachable!(),
    }
}

#[test]
fn lifts_dates_from_paths() {
    assert_eq!(date_from_path("data/2024-03-15/a.csv").as_deref(), Some("2024-03-15"));
    assert_eq!(date_from_path("export-2024-03.csv").as_deref(), Some("2024-03-01"));
    assert_eq!(date_from_path("month1/a.csv"), None);
}

#[test]
fn synthetic_months_roll_over_the_year() {
    assert_eq!(synthetic_month(0), "2000-01-01");
    assert_eq!(synthetic_month(12), "2001-01-01");
}

#[test]
fn instants() {
    assert!(is_instant("2024-01-01") && is_instant("2024-01-01T09:00:00Z"));
    assert!(!is_instant("2024-1-1") && !is_instant("hello"));
}

#[test]
fn instants_at_the_edges() {
    assert!(is_instant("2024-99-99") && is_instant("2024-01-01:") && is_instant("2024-01-01 9:00"));
    assert!(!is_instant("") && !is_instant("2024-01-01T0900") && !is_instant("2024-01-0é:"));
    assert!(!is_instant("2024_01-01"));
}

#[test]
fn dates_in_paths_at_the_edges() {
    assert_eq!(date_from_path("é2024-03-1").as_deref(), Some("2024-03-01"));
    assert_eq!(date_from_path("12024-03-15x").as_deref(), Some("2024-03-15"));
    assert_eq!(date_from_path("2024-3-15"), None);
    assert_eq!(date_from_path("a/1999-12/2024-03-15.csv").as_deref(), Some("1999-12-01"));
    assert_eq!(date_from_path("2024-03").as_deref(), Some("2024-03-01"));
    assert_eq!(date_from_path(""), None);
}

#[test]
fn synthetic_months_are_consecutive() {
    assert_eq!(synthetic_month(8), "2000-09-01");
    assert_eq!(synthetic_month(9), "2000-10-01");
    assert_eq!(synthetic_month(11), "2000-12-01");
    assert_eq!(synthetic_month(95999), "9999-12-01");
    assert_eq!(synthetic_month(96000), "10000-01-01");
}

#[test]
fn explicit_dates_and_blank_lines() {
    let text = "# months\n\nmonth1/accounts.csv  2024-01-01\r\n  month2/accounts.csv\t2024-02-01T09:00 \n   # no\nm3-2024-03/a.csv";
    assert_eq!(
        listed(text),
        pairs(&[
            ("month1/accounts.csv", "2024-01-01"),
            ("month2/accounts.csv", "2024-02-01T09:00"),
            ("m3-2024-03/a.csv", "2024-03-01"),
        ])
    );
}

#[test]
fn a_bare_list_gets_synthetic_months() {
    assert_eq!(
        listed("month1/a.csv\nmonth2/a.csv\nmonth3/a.csv\n"),
        pairs(&[
            ("month1/a.csv", "2000-01-01"),
            ("month2/a.csv", "2000-02-01"),
            ("month3/a.csv", "2000-03-01"),
        ])
    );
}

#[test]
fn an_explicit_date_beats_the_path() {
    assert_eq!(listed("2024-03/a.csv 2023-01-01"), pairs(&[("2024-03/a.csv", "2023-01-01")]));
}

#[test]
fn manifest_errors() {
    assert_eq!(fault(""), (0, "manifest lists no files".to_owned()));
    assert_eq!(fault("# only\n \n"), (0, "manifest lists no files".to_owned()));
    assert_eq!(
        fault("a.csv 2024-01-01\n\nb.csv  January first\n"),
        (3, "`January first` is not a YYYY-MM-DD date or timestamp".to_owned())
    );
    assert_eq!(
        fault("a.csv 2024-01-01\nb.csv\n"),
        (
            2,
            "no date for `b.csv` (other lines have dates, so this one needs one too)".to_owned()
        )
    );
}

#[test]
fn white_space_of_any_kind_separates_fields() {
    assert_eq!(
        listed("\u{a0}a.csv\u{3000}\u{2003}2024-01-01\u{85}"),
        pairs(&[("a.csv", "2024-01-01")])
    );
}

#[test]
fn an_undated_file_is_named_by_its_line() {
    let message = "no date for `b.csv` (other lines have dates, so this one needs one too)";
    assert_eq!(fault("# c\na.csv 2024-01-01\nb.csv\n"), (3, message.to_owned()));
    assert_eq!(fault("\n\nb.csv\n# c\na.csv 2024-01-01\n"), (3, message.to_owned()));
}

#[test]
fn paths_are_resolved_against_the_manifest() {
    let paths = |list: &str, text: &str| -> Vec<String> {
        parse(list, text).ok().unwrap().into_iter().map(|e| e.path).collect()
    };
    let entries = parse("d/list.txt", "# c\n\nmonth1/a.csv\nmonth2/a.csv\n").ok().unwrap();
    let found: Vec<(&str, &str, &str)> = entries
        .iter()
        .map(|e| (e.path.as_str(), e.source.as_str(), e.at.as_str()))
        .collect();
    assert_eq!(
        found,
        [
            ("d/month1/a.csv", "month1/a.csv", "2000-01-01"),
            ("d/month2/a.csv", "month2/a.csv", "2000-02-01"),
        ]
    );
    assert_eq!(paths("list.txt", "a.csv"), ["a.csv"]);
    assert_eq!(paths("/x/y/list.txt", "a.csv\n../b.csv\n/z/c.csv"), [
        "/x/y/a.csv",
        "/x/y/../b.csv",
        "/z/c.csv",
    ]);
}

#[test]
fn pieces_of_a_path() {
    assert_eq!(directory("d/e/list.txt"), "d/e");
    assert_eq!(directory("list.txt"), "");
    assert_eq!(directory("/"), ".");
    assert_eq!(base_dir(None), ".");
    assert_eq!(base_dir(Some("d".to_owned())), "d");
    assert_eq!(resolve("d", "a.csv"), "d/a.csv");
    assert_eq!(resolve("d/", "a.csv"), "d/a.csv");
    assert_eq!(resolve("d", "/a.csv"), "/a.csv");
    assert_eq!(pick_path("a", true, "b".to_owned()), "a");
    assert_eq!(pick_path("a", false, "b".to_owned()), "b");
}

#[test]
fn synthetic_months_ascend() {
    let months: Vec<String> = (0..40).map(synthetic_month).collect();
    for pair in months.windows(2) {
        assert!(pair[0] < pair[1] && is_instant(&pair[0]));
    }
    assert!(synthetic_month(95998) < synthetic_month(95999));
}
