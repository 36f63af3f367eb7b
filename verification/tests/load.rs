use csv_pg_schema::error::Error;
use csv_pg_schema::infer::{build_schema, Options, Schema, SourceFile};
use csv_pg_schema::load::{
    ensure_account, insert_request, plan_file, split, upsert_attr, upsert_attrs, Action, Config,
    Param, Plan, Statement, Stats,
};
use csv_pg_schema::manifest::Entry;
use csv_pg_schema::table::read_table;

const MONTH: &str = "account_id,name,balance\n1,Ann,10.5\n2,,20.0\n";

fn schema() -> Schema {
    let file = SourceFile {
        entry: Entry {
            path: "m1.csv".to_owned(),
            source: "m1.csv".to_owned(),
            at: "2024-01-01".to_owned(),
        },
        bytes: MONTH.as_bytes().to_vec(),
    };
    let opts = Options {
        schema: "account".to_owned(),
        key: None,
        enum_max: 32,
        null_tokens: Vec::new(),
        strict: true,
    };
    build_schema(&[file], &opts).ok().unwrap()
}

fn plan(text: &str, strict: bool, changed: &[bool]) -> Plan {
    let tokens = vec!["NA".to_owned()];
    let cfg = Config { null_tokens: &tokens, strict, changed, checks: false };
    let t = read_table(text.as_bytes(), !strict).unwrap();
    plan_file(&schema(), &cfg, "m1.csv", &t)
}

type Parts<'a> = (&'a str, Vec<Option<&'a str>>, Vec<Option<&'a str>>);

fn parts(action: &Action) -> Option<Parts<'_>> {
    match action {
        Action::Skip => None,
        Action::Write { key, statics, changing } => Some((
            key.as_str(),
            statics.iter().map(|c| c.as_deref()).collect(),
            changing.iter().map(|c| c.as_deref()).collect(),
        )),
    }
}

fn params(s: &Statement) -> Vec<String> {
    s.params
        .iter()
        .map(|p| match p {
            Param::Account => "#account".to_owned(),
            Param::Request => "#request".to_owned(),
            Param::Text(Some(t)) => t.clone(),
            Param::Text(None) => "#null".to_owned(),
        })
        .collect()
}

fn fault(plan: &Plan) -> (&str, &str) {
    match &plan.fault {
        Some(Error::Data { source, message }) => (source, message),
        _ => unreachable!(),
    }
}

#[test]
fn attributes_are_split_by_change() {
    let l = split(4, &[true, false, false, true]);
    assert_eq!((l.statics, l.changing), (vec![1, 2], vec![0, 3]));
    let l = split(3, &[true]);
    assert_eq!((l.statics, l.changing), (vec![], vec![0]));
    let l = split(1, &[false, true]);
    assert_eq!((l.statics, l.changing), (vec![0], vec![]));
}

#[test]
fn every_row_is_planned() {
    let p = plan(MONTH, true, &[false, true]);
    assert!(p.fault.is_none());
    assert_eq!(p.actions.len(), 2);
    assert_eq!(parts(&p.actions[0]), Some(("1", vec![Some("Ann")], vec![Some("10.5")])));
    assert_eq!(parts(&p.actions[1]), Some(("2", vec![None], vec![Some("20.0")])));
}

#[test]
fn columns_are_found_by_header() {
    let p = plan("balance,account_id\nNA,7\n", false, &[false, true]);
    assert_eq!(parts(&p.actions[0]), Some(("7", vec![None], vec![None])));
    let p = plan("name\nAnn\n", false, &[false, true]);
    assert_eq!(parts(&p.actions[0]), None);
}

#[test]
fn a_blank_key_is_refused_or_skipped() {
    let text = "account_id,name,balance\n1,Ann,1\nNA,Bob,2\n3,Cy,3\n";
    let p = plan(text, true, &[true, true]);
    assert_eq!(p.actions.len(), 1);
    assert_eq!(fault(&p), ("m1.csv", "row 3: empty key column `account_id`"));
    let p = plan(text, false, &[true, true]);
    assert!(p.fault.is_none());
    assert!(matches!(p.actions[1], Action::Skip));
    let mut stats = Stats::new();
    assert!(stats.record("m1.csv", &p).is_ok());
    assert_eq!(stats, Stats { files: 1, rows: 2, skipped: 1 });
    assert!(stats.record("m1.csv", &p).is_ok());
    assert_eq!(stats, Stats { files: 2, rows: 4, skipped: 2 });
}

#[test]
fn a_repeated_key_is_refused_in_strict_mode() {
    let text = "account_id,name,balance\n1,Ann,1\n2,Bob,2\n1,Ann,3\n";
    let p = plan(text, true, &[true, true]);
    assert_eq!(p.actions.len(), 2);
    assert_eq!(fault(&p), ("m1.csv", "row 4: duplicate account key `1`"));
    let p = plan(text, false, &[true, true]);
    assert!(p.fault.is_none());
    assert_eq!(p.actions.len(), 3);
}

#[test]
fn a_ragged_row_ends_the_plan() {
    let text = "account_id,name,balance\n1,Ann,1\n2,Bob\n";
    let p = plan(text, true, &[true, true]);
    assert_eq!(p.actions.len(), 1);
    assert_eq!(fault(&p), ("m1.csv", "row 3: found 2 cell(s), expected 3"));
    let p = plan(text, false, &[true, true]);
    assert_eq!(parts(&p.actions[1]), Some(("2", vec![], vec![Some("Bob"), None])));
}

#[test]
fn tallies_that_do_not_fit() {
    let p = plan(MONTH, true, &[true, true]);
    let full = Stats { files: 0, rows: usize::MAX - 1, skipped: 0 };
    let mut stats = full;
    assert!(matches!(stats.record("m", &p), Err(Error::TooLarge { source }) if source == "m"));
    assert_eq!(stats, full);
}

#[test]
fn the_request_statement() {
    let s = insert_request(&schema(), "m1.csv", "2024-01-01");
    assert_eq!(
        s.sql,
        "INSERT INTO account.import_request (source, at) VALUES ($1, $2::text::timestamptz) RETURNING id"
    );
    assert_eq!(params(&s), ["m1.csv", "2024-01-01"]);
}

#[test]
fn the_account_statement() {
    let schema = schema();
    let s = ensure_account(&schema, &[false, false], "1", &vec![Some("Ann".to_owned()), None]);
    assert_eq!(
        s.sql,
        "INSERT INTO account.account (account_id, name, balance, request_id) \
         VALUES ($1::text::bigint, $2::text::text, $3::text::numeric, $4) \
         ON CONFLICT (account_id) DO UPDATE SET account_id = EXCLUDED.account_id RETURNING id"
    );
    assert_eq!(params(&s), ["1", "Ann", "#null", "#request"]);
    let s = ensure_account(&schema, &[true, true], "1", &vec![]);
    assert_eq!(
        s.sql,
        "INSERT INTO account.account (account_id, request_id) VALUES ($1::text::bigint, $2) \
         ON CONFLICT (account_id) DO UPDATE SET account_id = EXCLUDED.account_id RETURNING id"
    );
    assert_eq!(params(&s), ["1", "#request"]);
}

#[test]
fn the_upsert_statements() {
    let schema = schema();
    let pair = upsert_attr("account", &schema.attrs[1], &None, "2024-01-01");
    assert_eq!(pair.len(), 2);
    assert_eq!(
        pair[0].sql,
        "UPDATE account.account_balance SET during = tstzrange(lower(during), $3::text::timestamptz) \
         WHERE id = $1 AND during @> $3::text::timestamptz AND balance IS DISTINCT FROM $2::text::numeric"
    );
    assert_eq!(params(&pair[0]), ["#account", "#null", "2024-01-01"]);
    assert_eq!(
        pair[1].sql,
        "INSERT INTO account.account_balance (id, balance, request_id, during) \
         SELECT $1, $2::text::numeric, $3, tstzrange($4::text::timestamptz, 'infinity') \
         WHERE NOT EXISTS (SELECT 1 FROM account.account_balance WHERE id = $1 AND during @> $4::text::timestamptz)"
    );
    assert_eq!(params(&pair[1]), ["#account", "#null", "#request", "2024-01-01"]);
}

#[test]
fn changing_attributes_are_upserted_in_order() {
    let schema = schema();
    let row = vec![Some("Ann".to_owned()), Some("1.5".to_owned())];
    let all = upsert_attrs(&schema, &[true, true], &row, "2024-01-01");
    assert_eq!(all.len(), 4);
    assert!(all[0].sql.starts_with("UPDATE account.account_name "));
    assert!(all[1].sql.starts_with("INSERT INTO account.account_name "));
    assert!(all[2].sql.starts_with("UPDATE account.account_balance "));
    assert_eq!(params(&all[3]), ["#account", "1.5", "#request", "2024-01-01"]);
    assert!(upsert_attrs(&schema, &[false, false], &vec![], "2024-01-01").is_empty());
}
