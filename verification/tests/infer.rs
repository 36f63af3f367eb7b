use csv_pg_schema::error::Error;
use csv_pg_schema::ident::{choose_key, sanitize_ident};
use csv_pg_schema::infer::{
    build_schema, check_headers, Accumulator, Cardinality, CharClasses, ColType, Options, Scan,
    Schema, SourceFile,
};
use csv_pg_schema::manifest::Entry;
use csv_pg_schema::order::TextSet;
use csv_pg_schema::scalar::{
    candidate_checks, decimal_parts, is_bool, is_date, is_int, is_numeric, is_timestamp,
};
use csv_pg_schema::table::{read_table, RowFault, Table};
use csv_pg_schema::util::is_null;

fn feed(values: &[&str], enum_max: usize) -> Accumulator {
    let mut acc = Accumulator::new(enum_max);
    for v in values {
        acc.observe(v, v.is_empty(), enum_max);
    }
    acc
}

/// Build a column header list from string slices.
fn headers(names: &[&str]) -> Vec<String> {
    names.iter().map(|n| n.to_string()).collect()
}

fn options(strict: bool) -> Options {
    Options {
        schema: "account".to_owned(),
        key: None,
        enum_max: 32,
        null_tokens: Vec::new(),
        strict,
    }
}

fn file(source: &str, text: &str) -> SourceFile {
    SourceFile {
        entry: Entry {
            path: source.to_owned(),
            source: source.to_owned(),
            at: "2024-01-01".to_owned(),
        },
        bytes: text.as_bytes().to_vec(),
    }
}

fn schema_of(files: &[SourceFile], opts: &Options) -> Schema {
    match build_schema(files, opts) {
        Ok(schema) => schema,
        Err(e) => panic!("{}", e.describe()),
    }
}

fn fault_of(files: &[SourceFile], opts: &Options) -> Error {
    match build_schema(files, opts) {
        Ok(_) => panic!("the files were accepted"),
        Err(e) => e,
    }
}

#[test]
fn predicates() {
    assert!(is_numeric("3.14") && is_numeric("-1") && is_numeric("1e3"));
    assert!(!is_numeric("1.2.3") && !is_numeric("inf") && !is_numeric(""));
    assert!(is_date("2024-02-29") && !is_date("2024-13-01") && !is_date("2024-1-1"));
    assert!(is_timestamp("2024-02-01T09:30:00Z") && !is_timestamp("2024-02-01"));
}

#[test]
fn picks_most_specific_type() {
    assert_eq!(feed(&["1", "2", "30"], 32).col_type(), ColType::Bigint);
    assert_eq!(feed(&["1.5", "2", "30"], 32).col_type(), ColType::Numeric);
    assert_eq!(feed(&["true", "false", "t"], 32).col_type(), ColType::Boolean);
    assert_eq!(feed(&["2024-01-01", "2024-02-01"], 32).col_type(), ColType::Date);
    assert_eq!(feed(&["fixed", "variable"], 32).col_type(), ColType::Text);
}

#[test]
fn enum_detection() {
    // Repeated low-cardinality values are enum-like.
    let acc = feed(&["a", "b", "a", "b", "a"], 32);
    assert_eq!(acc.enum_values(), Some(vec!["a".to_owned(), "b".to_owned()]));
    // All-distinct (ids) are not.
    assert_eq!(feed(&["1", "2", "3"], 32).enum_values(), None);
    // Past the cap, not enum-like.
    assert_eq!(feed(&["a", "b", "c"], 2).enum_values(), None);
}

#[test]
fn nullable_tracks_empties() {
    let acc = feed(&["x", "", "y"], 32);
    assert!(acc.saw_null);
    assert_eq!(acc.non_null, 2);
}

#[test]
fn profiles_numeric_range_and_scale() {
    let p = feed(&["1500.00", "-420.00", "30000.00"], 32).profile();
    assert_eq!(p.num_range, Some(("-420.00".to_owned(), "30000.00".to_owned())));
    // 30000 has 5 integer digits, scale 2 -> numeric(7, 2).
    assert_eq!(p.num_scale, Some((7, 2)));
    // Integers carry no scale suggestion (they're bigint anyway).
    assert_eq!(feed(&["1", "2", "30"], 32).profile().num_scale, None);
    // Scientific notation makes scale ambiguous.
    assert_eq!(feed(&["1.5", "2e3"], 32).profile().num_scale, None);
}

#[test]
fn decimal_parts_splits_digits() {
    assert_eq!(decimal_parts("-420.00"), Some((3, 2)));
    assert_eq!(decimal_parts("0.50"), Some((0, 2)));
    assert_eq!(decimal_parts("1500"), Some((4, 0)));
    assert_eq!(decimal_parts("1e3"), None);
}

#[test]
fn cardinality_buckets() {
    let mk = |n: usize| {
        let vals: Vec<String> = (0..n).map(|i| format!("v{i}")).collect();
        let refs: Vec<&str> = vals.iter().map(String::as_str).collect();
        feed(&refs, 64).profile().cardinality()
    };
    assert_eq!(mk(3), Cardinality::Enum); // < 5
    assert_eq!(mk(7), Cardinality::Borderline); // 5..=10
    assert_eq!(mk(20), Cardinality::Table); // > 10
    // Past the enum cap, definitely a table.
    let p = feed(&["a", "b", "c"], 2).profile();
    assert!(p.distinct_overflow && p.cardinality() == Cardinality::Table);
}

#[test]
fn char_classes_and_length() {
    assert_eq!(
        feed(&["USD", "CAD", "EUR"], 32).profile().classes.label(),
        Some("uppercase letters only")
    );
    assert_eq!(
        feed(&["active", "closed"], 32).profile().classes.label(),
        Some("lowercase letters only")
    );
    let p = feed(&["ab", "abcd", "a"], 32).profile();
    assert_eq!(p.len_range, Some((1, 4)));
}

#[test]
fn profile_counts_nulls_and_temporal_range() {
    let p = feed(&["x", "", "y", ""], 32).profile();
    assert_eq!((p.non_null, p.null_count), (2, 2));
    let p = feed(&["2021-12-31", "2019-05-05", "2020-01-01"], 32).profile();
    assert_eq!(
        p.temporal_range,
        Some(("2019-05-05".to_owned(), "2021-12-31".to_owned()))
    );
    assert_eq!(p.num_range, None);
}

#[test]
fn strict_header_check() {
    let first = headers(&["a", "b"]);
    // Order may differ.
    assert!(check_headers("f", &first, &headers(&["b", "a"])).is_ok());
    // A dropped or added column is an error.
    assert!(check_headers("f", &first, &headers(&["a"])).is_err());
    assert!(check_headers("f", &first, &headers(&["a", "b", "c"])).is_err());
}

#[test]
fn identifiers_are_safe_and_unique() {
    let mut used = TextSet::new();
    assert_eq!(sanitize_ident("Account Number", &mut used, false), "account_number");
    assert_eq!(sanitize_ident("Account-Number", &mut used, false), "account_number_2");
    assert_eq!(sanitize_ident("123abc", &mut used, false), "c_123abc");
    // Attribute idents dodge the structural column names.
    assert_eq!(sanitize_ident("during", &mut used, true), "during_val");
}

#[test]
fn identifiers_of_odd_headers() {
    let mut used = TextSet::new();
    assert_eq!(sanitize_ident("", &mut used, false), "col");
    assert_eq!(sanitize_ident("--", &mut used, false), "col_2");
    assert_eq!(sanitize_ident("  Größe (m) ", &mut used, false), "gr_e_m");
    assert_eq!(sanitize_ident("A__B", &mut used, false), "a_b");
    assert_eq!(sanitize_ident("id", &mut used, false), "id");
    assert_eq!(sanitize_ident("ID", &mut used, true), "id_val");
    assert_eq!(sanitize_ident("request id", &mut used, true), "request_id_val");
    assert_eq!(sanitize_ident("a b", &mut used, true), "a_b_2");
    assert_eq!(sanitize_ident("a-b", &mut used, true), "a_b_3");
}

#[test]
fn booleans_and_integers() {
    for s in ["true", "FALSE", "t", "F", "Yes", "no"] {
        assert!(is_bool(s));
    }
    for s in ["", "1", "y", "truee", "on"] {
        assert!(!is_bool(s));
    }
    for s in ["0", "-0", "+7", "007", "9223372036854775807", "-9223372036854775808"] {
        assert!(is_int(s));
    }
    for s in ["", "+", "-", "1.0", " 1", "9223372036854775808", "-9223372036854775809", "1_000"] {
        assert!(!is_int(s));
    }
}

#[test]
fn numbers_dates_and_timestamps_at_the_edges() {
    for s in ["+1.", ".5", "-0.0", "1E+10", "1e-3", "00012"] {
        assert!(is_numeric(s));
    }
    for s in [".", "-", "e5", "1e", "1e+", "1.5x", "nan", "1 "] {
        assert!(!is_numeric(s));
    }
    assert!(is_date("2024-12-31") && !is_date("2024-00-10") && !is_date("2024-01-32"));
    assert!(!is_date("2024-01-01 ") && !is_date("2024/01/01"));
    assert!(is_timestamp("2024-02-01 9:30") && !is_timestamp("2024-02-01T0930"));
    assert!(!is_timestamp("2024-13-01T09:30") && !is_timestamp("2024-02-01x09:30"));
    assert!(!is_timestamp("2024-02-0ü:30"));
    assert_eq!(candidate_checks("1"), [false, true, true, false, false]);
    assert_eq!(candidate_checks("2024-02-01"), [false, false, false, true, false]);
}

#[test]
fn decimal_parts_at_the_edges() {
    assert_eq!(decimal_parts("007.10"), Some((1, 2)));
    assert_eq!(decimal_parts(".5"), Some((0, 1)));
    assert_eq!(decimal_parts("+12."), Some((2, 0)));
    assert_eq!(decimal_parts("0"), Some((0, 0)));
    assert_eq!(decimal_parts("1.5E2"), None);
}

#[test]
fn type_names_in_sql() {
    let names: Vec<&str> = [
        ColType::Boolean,
        ColType::Bigint,
        ColType::Numeric,
        ColType::Date,
        ColType::Timestamptz,
        ColType::Text,
    ]
    .into_iter()
    .map(ColType::sql)
    .collect();
    assert_eq!(names, ["boolean", "bigint", "numeric", "date", "timestamptz", "text"]);
}

#[test]
fn a_column_without_values_is_text() {
    let acc = feed(&["", ""], 32);
    assert_eq!(acc.col_type(), ColType::Text);
    assert_eq!(acc.enum_values(), None);
    let p = acc.profile();
    assert_eq!((p.non_null, p.null_count, p.distinct), (0, 2, 0));
    assert_eq!(p.len_range, None);
    assert_eq!(p.classes.label(), None);
}

#[test]
fn the_enum_cap_is_inclusive() {
    assert_eq!(
        feed(&["b", "a", "b"], 2).enum_values(),
        Some(vec!["a".to_owned(), "b".to_owned()])
    );
    let p = feed(&["b", "a", "c", "a"], 2).profile();
    assert!(p.distinct_overflow);
    assert_eq!((p.distinct, p.enum_cap), (2, 2));
}

#[test]
fn a_missing_cell_adds_to_the_null_count_only() {
    let mut acc = feed(&["b", "a", "b"], 32);
    acc.observe("zzz", true, 32);
    assert!(acc.saw_null);
    assert_eq!((acc.non_null, acc.null_count), (3, 1));
    assert_eq!(acc.distinct.items, ["a", "b"]);
    assert_eq!(acc.profile().len_range, Some((1, 1)));
    assert_eq!(acc.lex_max.as_deref(), Some("b"));
}

#[test]
fn distinct_values_are_dropped_past_the_cap() {
    let mut acc = feed(&["a", "b"], 2);
    assert_eq!(acc.distinct.len(), 2);
    for v in ["c", "a", "d"] {
        acc.observe(v, false, 2);
        assert!(acc.distinct_overflow && acc.distinct.len() == 0);
    }
    let acc = feed(&["a"], 0);
    assert!(acc.distinct_overflow && acc.distinct.len() == 0);
}

#[test]
fn identifiers_are_stable_and_blind_to_case() {
    for name in ["Account Number", "123abc", "", "__A  b__", "during", "Request-ID", "Größe"] {
        for is_attr in [false, true] {
            let id = sanitize_ident(name, &mut TextSet::new(), is_attr);
            assert_eq!(sanitize_ident(&id, &mut TextSet::new(), is_attr), id);
            let shouted = name.to_ascii_uppercase();
            assert_eq!(sanitize_ident(&shouted, &mut TextSet::new(), is_attr), id);
        }
    }
}

#[test]
fn ranges_bound_every_value() {
    // The value decides, not the text, and the first of equal values stays.
    let p = feed(&["10", "9.50", "9.5", "1e1", "-0.1"], 32).profile();
    assert_eq!(p.num_range, Some(("-0.1".to_owned(), "10".to_owned())));
    // Neighbours that differ in the last of many digits are told apart.
    let p = feed(&["9007199254740993", "9007199254740992", "9007199254740994"], 32).profile();
    assert_eq!(
        p.num_range,
        Some(("9007199254740992".to_owned(), "9007199254740994".to_owned()))
    );
    let p = feed(&["0.005", "12.5"], 32).profile();
    assert_eq!(p.num_scale, Some((5, 3)));
    let p = feed(&["2024-02-01T10:00", "2024-02-01 09:00"], 32).profile();
    assert_eq!(
        p.temporal_range,
        Some(("2024-02-01 09:00".to_owned(), "2024-02-01T10:00".to_owned()))
    );
}

#[test]
fn labels_of_character_classes() {
    let label = |values: &[&str]| {
        let mut c = CharClasses::new();
        for v in values {
            c.observe(v);
        }
        c.label()
    };
    assert_eq!(label(&[]), None);
    assert_eq!(label(&["12", "7"]), Some("digits only"));
    assert_eq!(label(&["Abc"]), Some("letters only"));
    assert_eq!(label(&["A-1"]), Some("uppercase only (no lowercase)"));
    assert_eq!(label(&["a-1"]), Some("lowercase only (no uppercase)"));
    assert_eq!(label(&["Ab1"]), Some("alphanumeric only"));
    assert_eq!(label(&["Ab 1"]), Some("ASCII only"));
    assert_eq!(label(&["Aé 1"]), None);
    assert_eq!(label(&["é"]), Some("lowercase letters only"));
    assert_eq!(label(&["É"]), Some("uppercase letters only"));
    assert_eq!(label(&["½"]), Some("digits only"));
}

#[test]
fn header_drift_is_spelled_out() {
    let message = |first: &[&str], got: &[&str]| {
        match check_headers("m2.csv", &headers(first), &headers(got)) {
            Err(Error::Data { source, message }) => {
                assert_eq!(source, "m2.csv");
                message
            }
            _ => unreachable!(),
        }
    };
    assert_eq!(
        message(&["c", "a", "b"], &["b"]),
        "headers differ from the first file (missing column(s): a, c)"
    );
    assert_eq!(
        message(&["a"], &["z", "a", "y"]),
        "headers differ from the first file (unexpected column(s): y, z)"
    );
    assert_eq!(
        message(&["a"], &["b"]),
        "headers differ from the first file (missing column(s): a; unexpected column(s): b)"
    );
}

#[test]
fn the_key_is_chosen_by_name() {
    let pick = |names: &[&str], explicit: Option<&str>| choose_key(&headers(names), explicit);
    assert_eq!(pick(&["x", "ID", "Account Id"], None).unwrap(), "Account Id");
    assert_eq!(pick(&["x", "customer_id", "Id"], None).unwrap(), "Id");
    assert_eq!(pick(&["x", "y"], None).unwrap(), "x");
    assert_eq!(pick(&["x", "Name"], Some("nAME")).unwrap(), "Name");
    match pick(&["x"], Some("y")) {
        Err(Error::Schema(m)) => assert_eq!(m, "key column `y` not found in CSV headers"),
        _ => unreachable!(),
    }
}

#[test]
fn null_cells() {
    let tokens = headers(&["NA", "\\N"]);
    assert!(is_null("", &[]) && is_null("", &tokens) && is_null("NA", &tokens));
    assert!(is_null("\\N", &tokens) && !is_null("na", &tokens) && !is_null("NA", &[]));
}

#[test]
fn a_rare_value_of_a_late_month_is_captured() {
    let files = [
        file("m1.csv", "id,rate\n1,fixed\n2,fixed\n"),
        file("m2.csv", "id,rate\n1,fixed\n2,variable\n"),
    ];
    let schema = schema_of(&files, &options(true));
    assert_eq!(schema.name, "account");
    assert_eq!(schema.key.header, "id");
    assert_eq!(schema.key.ty, ColType::Bigint);
    assert_eq!(schema.key.enum_values, None);
    assert_eq!(schema.attrs.len(), 1);
    let rate = &schema.attrs[0];
    assert_eq!(rate.enum_values, Some(headers(&["fixed", "variable"])));
    assert!(!rate.nullable);
    assert_eq!(schema.sources, headers(&["m1.csv", "m2.csv"]));
}

#[test]
fn a_missing_column_counts_as_null() {
    let files = [
        file("m1.csv", "id,a\n1,x\n2,y\n"),
        file("m2.csv", "b,id\ntrue,1\n"),
        file("m3.csv", "id,a,b\n1,z,no\n"),
    ];
    let schema = schema_of(&files, &options(false));
    let names: Vec<&str> = schema.attrs.iter().map(|c| c.header.as_str()).collect();
    assert_eq!(names, ["a", "b"]);
    let (a, b) = (&schema.attrs[0], &schema.attrs[1]);
    assert!(a.nullable && b.nullable);
    assert_eq!((a.profile.non_null, a.profile.null_count), (3, 1));
    assert_eq!((b.profile.non_null, b.profile.null_count), (2, 2));
    assert_eq!(b.ty, ColType::Boolean);
    // The same files are refused in strict mode.
    match fault_of(&files, &options(true)) {
        Error::Data { source, message } => {
            assert_eq!(source, "m2.csv");
            assert_eq!(
                message,
                "headers differ from the first file (missing column(s): a; unexpected column(s): b)"
            );
        }
        _ => unreachable!(),
    }
}

#[test]
fn a_ragged_row_is_refused_or_filled_up() {
    let files = [file("m1.csv", "id,a\n1,x\n2\n")];
    match fault_of(&files, &options(true)) {
        Error::Data { source, message } => {
            assert_eq!(source, "m1.csv");
            assert_eq!(message, "row 3: found 1 cell(s), expected 2");
        }
        _ => unreachable!(),
    }
    let schema = schema_of(&files, &options(false));
    assert!(schema.attrs[0].nullable);
    assert_eq!(schema.attrs[0].profile.null_count, 1);
}

#[test]
fn null_tokens_reach_inference() {
    let mut opts = options(true);
    opts.null_tokens = headers(&["NA"]);
    let schema = schema_of(&[file("m", "id,n\n1,5\n2,NA\n")], &opts);
    assert_eq!(schema.attrs[0].ty, ColType::Bigint);
    assert!(schema.attrs[0].nullable);
}

#[test]
fn an_explicit_key_and_schema_name() {
    let mut opts = options(true);
    opts.key = Some("ACCT".to_owned());
    opts.schema = "My Schema".to_owned();
    let schema = schema_of(&[file("m", "id,acct\n1,7\n")], &opts);
    assert_eq!(schema.name, "my_schema");
    assert_eq!(schema.key.ident, "acct");
    assert_eq!(schema.attrs[0].ident, "id_val");
    opts.key = Some("nope".to_owned());
    match fault_of(&[file("m", "id\n1\n")], &opts) {
        Error::Schema(m) => assert_eq!(m, "key column `nope` not found in CSV headers"),
        _ => unreachable!(),
    }
}

#[test]
fn no_columns_no_schema() {
    match fault_of(&[], &options(true)) {
        Error::Schema(m) => assert_eq!(m, "no columns found in any input CSV"),
        _ => unreachable!(),
    }
}

#[test]
fn identifiers_of_a_schema_are_told_apart() {
    let schema = schema_of(
        &[file("m", "account id,Account_Id,during,id,a b,a-b\n1,2,3,4,5,6\n")],
        &options(true),
    );
    assert_eq!(schema.key.ident, "account_id");
    let idents: Vec<&str> = schema.attrs.iter().map(|c| c.ident.as_str()).collect();
    assert_eq!(idents, ["account_id_2", "during_val", "id_val", "a_b", "a_b_2"]);
}

#[test]
fn text_that_is_not_utf8() {
    let bad = SourceFile {
        entry: Entry {
            path: "m".to_owned(),
            source: "m".to_owned(),
            at: "2024-01-01".to_owned(),
        },
        bytes: vec![b'i', b'd', b'\n', 0xff, b'\n'],
    };
    match fault_of(&[bad], &options(true)) {
        Error::Csv(m) => assert!(m.contains("invalid utf-8")),
        _ => unreachable!(),
    }
    match read_table(&[0xff, b'\n'], true) {
        Err(Error::Csv(m)) => assert!(m.contains("invalid utf-8")),
        _ => unreachable!(),
    }
}

#[test]
fn tables_are_read_up_to_the_first_fault() {
    let text = "a,\"b,c\"\r\n1,\"x\ny\"\n2,z,3\n4,5\n";
    let t = read_table(text.as_bytes(), false).unwrap();
    assert_eq!(t.headers, ["a", "b,c"]);
    assert_eq!(t.rows, vec![headers(&["1", "x\ny"])]);
    assert!(matches!(t.fault, Some(RowFault::Ragged { expected: 2, found: 3 })));
    let t = read_table(text.as_bytes(), true).unwrap();
    assert_eq!(t.rows.len(), 3);
    assert_eq!(t.rows[1], headers(&["2", "z", "3"]));
    assert!(t.fault.is_none());
    let t = read_table(b"", false).unwrap();
    assert!(t.headers.is_empty() && t.rows.is_empty() && t.fault.is_none());
}

#[test]
fn records_behind_a_fault_are_dropped() {
    let t = Table::new(
        headers(&["a"]),
        vec![
            Ok(headers(&["1"])),
            Err(RowFault::Csv("broken".to_owned())),
            Ok(headers(&["2"])),
        ],
    );
    assert_eq!(t.rows, vec![headers(&["1"])]);
    assert!(matches!(t.fault, Some(RowFault::Csv(m)) if m == "broken"));
}

#[test]
fn a_refused_file_leaves_the_scan_as_it_was() {
    let opts = options(true);
    let mut scan = Scan::new(&opts);
    let good = read_table(b"id,a\n1,x\n2,x\n", false).unwrap();
    let drifted = read_table(b"id,b\n1,y\n", false).unwrap();
    assert!(scan.add_table("m1", &good).is_ok());
    assert!(scan.add_table("m2", &drifted).is_err());
    let schema = scan.finish().ok().unwrap();
    assert_eq!(schema.sources, headers(&["m1"]));
    assert_eq!(schema.attrs.len(), 1);
    assert_eq!(schema.attrs[0].enum_values, Some(headers(&["x"])));
}

#[test]
fn errors_in_words() {
    let says = |e: Error| e.describe();
    assert_eq!(says(Error::Csv("bad".to_owned())), "csv error: bad");
    assert_eq!(says(Error::Schema("none".to_owned())), "schema error: none");
    assert_eq!(
        says(Error::Manifest {
            path: "d/list.txt".to_owned(),
            line: 3,
            message: "bad".to_owned(),
        }),
        "d/list.txt:3: bad"
    );
    assert_eq!(
        says(Error::Data { source: "m.csv".to_owned(), message: "row 2: bad".to_owned() }),
        "m.csv: row 2: bad"
    );
    assert_eq!(
        says(Error::TooLarge { source: "m.csv".to_owned() }),
        "m.csv: too many cells to count"
    );
    assert_eq!(
        says(Error::MissingEnv("DATABASE_URL")),
        "missing environment variable DATABASE_URL"
    );
    assert_eq!(says(Error::Usage("usage".to_owned())), "usage");
}
