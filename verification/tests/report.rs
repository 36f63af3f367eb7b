use csv_pg_schema::error::Error;
use csv_pg_schema::infer::{build_schema, Options, Schema, SourceFile};
use csv_pg_schema::manifest::parse;
use csv_pg_schema::months::{diff, read_snapshots, render_cell};
use csv_pg_schema::report::{
    changing_columns, constraint_detail, lifecycle, run, summarize, write_attr_changes,
    write_columns, write_enums, write_header, write_lifecycle, write_per_file, write_transitions,
};

/// The files of a manifest, with their texts.
fn files(list: &str, texts: &[&str]) -> Vec<SourceFile> {
    let entries = parse("list.txt", list).ok().unwrap();
    assert_eq!(entries.len(), texts.len());
    entries
        .into_iter()
        .zip(texts)
        .map(|(entry, text)| SourceFile { entry, bytes: text.as_bytes().to_vec() })
        .collect()
}

fn options(strict: bool) -> Options {
    Options {
        schema: "account".to_owned(),
        key: None,
        enum_max: 32,
        null_tokens: Vec::new(),
        strict,
    }
}

fn schema_of(files: &[SourceFile], strict: bool) -> Schema {
    build_schema(files, &options(strict)).ok().unwrap()
}

/// Build a manifest + two CSVs and run the report end to end, exercising
/// inference, snapshotting, and every section.
#[test]
fn end_to_end_report() {
    let files = files(
        "m1.csv\nm2.csv\n",
        &[
            "account_id,status,balance\n1,active,10.00\n2,active,20.00\n",
            "account_id,status,balance\n1,closed,10.50\n2,active,20.00\n3,active,5.00\n",
        ],
    );
    let schema = schema_of(&files, true);
    let out = run(&schema, &files, &[], true).unwrap();

    assert!(out.contains("key: account_id"));
    assert!(out.contains("value transitions"));
    assert!(out.contains("1: active -> closed"));
    assert!(out.contains("fits numeric(4,2)"));
    assert!(out.contains("added after first month: 3"));
}

/// A blank account key aborts a strict run but is tolerated otherwise.
#[test]
fn strict_rejects_blank_key() {
    let files = files("m1.csv\n", &["account_id,status\n1,active\n,active\n"]);
    let schema = schema_of(&files, true);

    assert!(run(&schema, &files, &[], true).is_err());
    assert!(run(&schema, &files, &[], false).is_ok());
}

#[test]
fn the_whole_report() {
    let files = files(
        "m1.csv 2024-01-01\nmonth2.csv 2024-02-01\n",
        &[
            "account_id,status,balance,note\n1,active,10.00,x\n2,active,20.00,\n",
            "account_id,status,balance,note\n1,closed,10.50,x\n3,active,5.00,x\n",
        ],
    );
    let schema = schema_of(&files, true);
    let want = "csv-pg-schema comparison report
schema: account   key: account_id (bigint)   files: 2

files (mN = column label used below):
  m1   m1.csv  (2024-01-01)
  m2   month2.csv  (2024-02-01)

per-file overview (vs previous month):
  file         rows   new  removed  chg-acct  chg-cell
  m1.csv          2     2        -         -         -
  month2.csv      2     1        1         1         2

columns & inferred constraints (3 attributes + key):
  account_id  bigint       key
                distinct 3  ·  range 1 .. 3
  status      text         not null
                distinct 2 -> enum candidate (<5)  ·  length 6  ·  lowercase letters only
  balance     numeric      not null
                distinct 4 -> enum candidate (<5)  ·  range 5.00 .. 20.00  ·  fits numeric(4,2)
  note        text         nullable
                distinct 1 -> enum candidate (<5)  ·  length 1  ·  lowercase letters only  ·  1/4 null

attribute changes (accounts changed, per transition):
  attribute   m1->m2
  status           1
  balance          1

value transitions (up to 10 per attribute per month):
  status:
    m1->m2:  1: active -> closed
  balance:
    m1->m2:  1: 10.00 -> 10.50

distinct values & first appearance (mN = month a value first showed up):
  status: active (m1), closed (m2)
  note: x (m1)

account lifecycle:
  distinct accounts: 3
  present in every month: 1
  added after first month: 3 (m2)
  gone before last month:  2 (last m1)
";
    assert_eq!(run(&schema, &files, &[], true).unwrap(), want);
}

#[test]
fn one_month_has_no_changes() {
    let files = files("a.csv\n", &["id,s\n1,x\n"]);
    let schema = schema_of(&files, true);
    let out = run(&schema, &files, &[], true).unwrap();
    assert!(!out.contains("attribute changes") && !out.contains("value transitions"));
    assert!(!out.contains("distinct values"));
    assert!(out.contains("  a.csv      1     1        -         -         -\n"));
    assert!(out.contains("  present in every month: 1\n"));
    assert!(out.contains("  added after first month: none\n"));
    assert!(out.contains("  gone before last month:  none\n"));
}

#[test]
fn a_repeated_month_changes_nothing() {
    let text = "id,s\n1,x\n2,x\n";
    let files = files("a.csv\nb.csv\n", &[text, text]);
    let schema = schema_of(&files, true);
    let snaps = read_snapshots(&schema, &files, &[], true).ok().unwrap();
    let d = diff(&snaps[0], &snaps[1], 1);
    assert_eq!((d.added, d.removed, d.changed_accounts, d.changed_cells), (0, 0, 0, 0));
    assert!(d.changes[0].is_empty());
    let out = run(&schema, &files, &[], true).unwrap();
    assert!(out.contains("attribute changes") && !out.contains("value transitions"));
    assert_eq!(changing_columns(&schema, &files, &[], true).unwrap(), [false]);
}

#[test]
fn a_step_balances() {
    let files = files(
        "a.csv\nb.csv\n",
        &["id,s,t\n1,x,1\n2,x,1\n3,x,1\n", "id,s,t\n3,y,2\n4,x,1\n2,x,1\n5,x,1\n"],
    );
    let schema = schema_of(&files, true);
    let snaps = read_snapshots(&schema, &files, &[], true).ok().unwrap();
    let d = diff(&snaps[0], &snaps[1], 2);
    assert_eq!((d.added, d.removed, d.changed_accounts, d.changed_cells), (2, 1, 1, 2));
    assert_eq!(snaps[0].values.len() + d.added, snaps[1].values.len() + d.removed);
    assert_eq!(d.changes[0][0].key, "3");
    assert_eq!((d.changes[1][0].old_cell.as_str(), d.changes[1][0].new_cell.as_str()), ("1", "2"));
}

#[test]
fn a_missing_cell_is_shown() {
    assert_eq!(render_cell(None), "∅");
    assert_eq!(render_cell(Some(&"x".to_owned())), "x");
    let files = files("a.csv\nb.csv\n", &["id,s\n1,NA\n", "id,s\n1,y\n"]);
    let tokens = vec!["NA".to_owned()];
    let schema = schema_of(&files, true);
    let out = run(&schema, &files, &tokens, true).unwrap();
    assert!(out.contains("    m1->m2:  1: ∅ -> y\n"));
}

#[test]
fn the_last_row_of_an_account_counts() {
    let files = files("a.csv\n", &["id,s\n1,x\n1,y\n"]);
    let schema = schema_of(&files, true);
    let snaps = read_snapshots(&schema, &files, &[], true).ok().unwrap();
    assert_eq!(snaps[0].values.len(), 1);
    assert_eq!(snaps[0].values.get("1").unwrap()[0].as_deref(), Some("y"));
}

#[test]
fn blank_keys_are_named_or_left_out() {
    let files = files("a.csv\n", &["account_id,s\n1,x\n,y\n2,z\n"]);
    let schema = schema_of(&files, true);
    match run(&schema, &files, &[], true) {
        Err(Error::Data { source, message }) => {
            assert_eq!(source, "a.csv");
            assert_eq!(message, "row 3: empty key column `account_id`");
        }
        _ => unreachable!(),
    }
    let snaps = read_snapshots(&schema, &files, &[], false).ok().unwrap();
    assert_eq!(snaps[0].values.len(), 2);
}

#[test]
fn a_ragged_row_aborts_the_report() {
    let good = files("a.csv\n", &["id,s\n1,x\n"]);
    let schema = schema_of(&good, true);
    let ragged = files("a.csv\n", &["id,s\n1,x\n2,y,z\n"]);
    match run(&schema, &ragged, &[], true) {
        Err(Error::Data { source, message }) => {
            assert_eq!(source, "a.csv");
            assert_eq!(message, "row 3: found 3 cell(s), expected 2");
        }
        _ => unreachable!(),
    }
    assert!(run(&schema, &ragged, &[], false).is_ok());
}

#[test]
fn late_values_stand_out() {
    let files = files(
        "a.csv\nb.csv\nc.csv\n",
        &["id,s\n1,b\n2,b\n", "id,s\n1,c\n2,a\n", "id,s\n1,b\n2,0\n"],
    );
    let schema = schema_of(&files, true);
    let out = run(&schema, &files, &[], true).unwrap();
    assert!(out.contains("  s: b (m1), a (m2), c (m2), 0 (m3)\n"));
}

#[test]
fn an_account_that_comes_back_is_not_in_every_month() {
    let files = files(
        "a.csv\nb.csv\nc.csv\n",
        &["id,s\n1,x\n2,x\n", "id,s\n2,x\n", "id,s\n1,y\n2,x\n"],
    );
    let schema = schema_of(&files, true);
    let snaps = read_snapshots(&schema, &files, &[], true).ok().unwrap();
    let (first, last) = lifecycle(&snaps);
    assert_eq!((first.get("1"), last.get("1")), (Some(&0), Some(&2)));
    let out = run(&schema, &files, &[], true).unwrap();
    assert!(out.contains("  distinct accounts: 2\n  present in every month: 1\n"));
    // No step changes the attribute, but the account's cell does change.
    assert!(!out.contains("value transitions"));
    assert_eq!(changing_columns(&schema, &files, &[], true).unwrap(), [true]);
}

#[test]
fn long_lists_are_cut() {
    let names = |n: usize| -> Vec<String> { (0..n).map(|i| format!("k{i}")).collect() };
    assert_eq!(summarize(&[]), "none");
    assert_eq!(summarize(&names(2)), "k0, k1");
    assert_eq!(
        summarize(&names(12)),
        "k0, k1, k2, k3, k4, k5, k6, k7, k8, k9, k10, k11"
    );
    assert_eq!(
        summarize(&names(15)),
        "k0, k1, k2, k3, k4, k5, k6, k7, k8, k9, k10, k11, … and 3 more"
    );
    let month = |cell: &str| -> String {
        let rows: Vec<String> = (0..11).map(|i| format!("k{i:02},{cell}\n")).collect();
        format!("id,s\n{}", rows.join(""))
    };
    let (m1, m2) = (month("a"), month("b"));
    let files = files("a.csv\nb.csv\n", &[m1.as_str(), m2.as_str()]);
    let schema = schema_of(&files, true);
    let out = run(&schema, &files, &[], true).unwrap();
    assert!(out.contains("k09: a -> b, … and 1 more\n") && !out.contains("k10: a"));
}

#[test]
fn sections_one_by_one() {
    let files = files("a.csv\nb.csv\n", &["id,s\n1,x\n2,x\n", "id,s\n1,y\n2,x\n"]);
    let schema = schema_of(&files, true);
    let snaps = read_snapshots(&schema, &files, &[], true).ok().unwrap();
    let diffs = vec![diff(&snaps[0], &snaps[1], 1)];
    let (first, last) = lifecycle(&snaps);
    let mut out = String::from("-");
    write_header(&mut out, &schema, &snaps);
    write_per_file(&mut out, &snaps, &diffs);
    write_columns(&mut out, &schema);
    write_attr_changes(&mut out, &schema, &diffs);
    write_transitions(&mut out, &schema, &diffs);
    write_enums(&mut out, &schema, &snaps);
    write_lifecycle(&mut out, &snaps, &first, &last);
    assert_eq!(out, format!("-{}", run(&schema, &files, &[], true).unwrap()));
}

#[test]
fn details_of_a_column() {
    let detail = |cells: &[&str], cap: usize| {
        let rows: Vec<String> =
            cells.iter().enumerate().map(|(i, c)| format!("{i},{c}\n")).collect();
        let text = format!("id,c\n{}", rows.join(""));
        let files = files("a.csv\n", &[text.as_str()]);
        let mut opts = options(true);
        opts.enum_max = cap;
        let schema = build_schema(&files, &opts).ok().unwrap();
        constraint_detail(&schema.attrs[0], false)
    };
    assert_eq!(detail(&["7", "7"], 32), "distinct 1 -> enum candidate (<5)  ·  value 7");
    assert_eq!(
        detail(&["a1", "B", ""], 32),
        "distinct 2 -> enum candidate (<5)  ·  length 1-2  ·  alphanumeric only  ·  1/3 null"
    );
    assert_eq!(
        detail(&["2024-01-01", "2024-01-01"], 32),
        "distinct 1 -> enum candidate (<5)  ·  date 2024-01-01"
    );
    assert_eq!(
        detail(&["1", "2", "3", "4", "5"], 32),
        "distinct 5 -> borderline (5-10)  ·  range 1 .. 5"
    );
    assert_eq!(
        detail(&["1", "2", "3"], 2),
        "distinct >2 -> lookup table candidate (>10)  ·  range 1 .. 3"
    );
}

#[test]
fn wide_names_widen_the_columns() {
    let files = files(
        "a-rather-long-name.csv\n",
        &["account_number_of_old,s\n1,x\n"],
    );
    let schema = schema_of(&files, true);
    let out = run(&schema, &files, &[], true).unwrap();
    assert!(out.contains("  file                     rows   new  removed  chg-acct  chg-cell\n"));
    assert!(out.contains("  s                      text         not null\n"));
}
