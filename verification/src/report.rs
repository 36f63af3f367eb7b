//! Compare the CSVs month over month and print a human-readable report.
//!
//! This reuses the inferred [`Schema`] (so it agrees with inference and
//! loading on column types, the account key, and which columns are enum-like)
//! and then diffs consecutive files purely in memory - no database needed. It
//! answers which accounts came and went, which attributes actually change
//! (down to the literal `old -> new` values), and when each distinct value
//! first appeared. It also prints the per-column value profile inferred
//! upstream - distinct-count cardinality (enum vs. lookup table),
//! numeric/date ranges, a `numeric(p, s)` suggestion, text length, character
//! class, and null counts - so the schema's constraints can be chosen before
//! any load.

use crate::error::{Fault, Result};
use crate::infer::{Column, ColumnFacts, Schema, SchemaFacts, SourceFile};
use crate::months;
use crate::months::{Accounts, Change, ChangeFacts, Diff, DiffFacts, Month, Snapshot};
use crate::order;
use crate::order::{TextMap, TextSet};
use crate::profile;
use crate::profile::{Cardinality, CharClasses, Profile};
use crate::scalar;
use crate::scalar::ColType;
use crate::text;
use vstd::prelude::*;

verus! {

/// The label of a month, counted from zero.
pub open spec fn label(i: nat) -> Seq<char> {
    "m"@ + text::decimal(i + 1)
}

fn label_text(i: usize) -> (out: String)
    ensures
        out@ == label(i as nat),
{
    let mut out = "m".to_owned();
    out.append(text::decimal_text(i as u128 + 1).as_str());
    out
}

/// The label of the step from a month to the next.
pub open spec fn step_label(t: nat) -> Seq<char> {
    label(t) + "->"@ + label(t + 1)
}

fn step_text(t: usize) -> (out: String)
    requires
        t < usize::MAX,
    ensures
        out@ == step_label(t as nat),
{
    let mut out = label_text(t);
    out.append("->");
    out.append(label_text(t + 1).as_str());
    out
}

/// A line of the list of files.
pub open spec fn file_line(i: nat, m: Month) -> Seq<char> {
    "  m"@ + text::pad_right(text::decimal(i + 1), 3) + " "@ + m.source + "  ("@ + m.at + ")"@
}

/// The title, the schema and the list of files.
pub open spec fn header_text(schema: SchemaFacts, ms: Seq<Month>) -> Seq<char> {
    "csv-pg-schema comparison report\n"@ + "schema: "@ + schema.name + "   key: "@
        + schema.key.ident + " ("@ + scalar::sql_name(schema.key.ty) + ")   files: "@
        + text::decimal(ms.len()) + "\n\nfiles (mN = column label used below):\n"@ + text::lines(
        Seq::new(ms.len(), |i: int| file_line(i as nat, ms[i])),
    ) + "\n"@
}

pub fn write_header(out: &mut String, schema: &Schema, snaps: &[Snapshot])
    ensures
        final(out)@ == old(out)@ + header_text(schema@, months::months(snaps@)),
{
    let mut list = String::new();
    let ghost lines = Seq::new(
        snaps@.len(),
        |i: int| file_line(i as nat, months::months(snaps@)[i]),
    );
    for i in 0..snaps.len()
        invariant
            list@ == text::lines(lines.take(i as int)),
            lines == Seq::new(
                snaps@.len(),
                |i: int| file_line(i as nat, months::months(snaps@)[i]),
            ),
    {
        let number = text::decimal_text(i as u128 + 1);
        let mut line = "  m".to_owned();
        line.append(text::padded_right(number.as_str(), 3).as_str());
        line.append(" ");
        line.append(snaps[i].source.as_str());
        line.append("  (");
        line.append(snaps[i].at.as_str());
        line.append(")");
        list.append(line.as_str());
        list.push('\n');
        assert(lines.take(i + 1).drop_last() =~= lines.take(i as int));
        assert(lines.take(i + 1).last() == line@);
    }
    assert(lines.take(lines.len() as int) =~= lines);
    let mut section = "csv-pg-schema comparison report\n".to_owned();
    section.append("schema: ");
    section.append(schema.name.as_str());
    section.append("   key: ");
    section.append(schema.key.ident.as_str());
    section.append(" (");
    section.append(schema.key.ty.sql());
    section.append(")   files: ");
    section.append(text::decimal_text(snaps.len() as u128).as_str());
    section.append("\n\nfiles (mN = column label used below):\n");
    section.append(list.as_str());
    section.append("\n");
    out.append(section.as_str());
}

/// A row of the overview: a name and five counts.
pub open spec fn overview_row(
    w: int,
    name: Seq<char>,
    rows: Seq<char>,
    added: Seq<char>,
    removed: Seq<char>,
    accounts: Seq<char>,
    cells: Seq<char>,
) -> Seq<char> {
    "  "@ + text::pad_right(name, w) + "  "@ + text::pad_left(rows, 5) + "  "@ + text::pad_left(
        added,
        4,
    ) + "  "@ + text::pad_left(removed, 7) + "  "@ + text::pad_left(accounts, 8) + "  "@
        + text::pad_left(cells, 8)
}

fn overview_line(
    w: usize,
    name: &str,
    rows: &str,
    added: &str,
    removed: &str,
    accounts: &str,
    cells: &str,
) -> (out: String)
    ensures
        out@ == overview_row(w as int, name@, rows@, added@, removed@, accounts@, cells@),
{
    let mut line = "  ".to_owned();
    line.append(text::padded_right(name, w).as_str());
    line.append("  ");
    line.append(text::padded_left(rows, 5).as_str());
    line.append("  ");
    line.append(text::padded_left(added, 4).as_str());
    line.append("  ");
    line.append(text::padded_left(removed, 7).as_str());
    line.append("  ");
    line.append(text::padded_left(accounts, 8).as_str());
    line.append("  ");
    line.append(text::padded_left(cells, 8).as_str());
    line
}

/// The overview of one month. All accounts of the first month are new, and it
/// has no month before it to lose or change any.
pub open spec fn month_row(w: int, ms: Seq<Month>, diffs: Seq<DiffFacts>, i: int) -> Seq<char> {
    let rows = text::decimal(ms[i].values.dom().len());
    if i == 0 {
        overview_row(w, ms[i].source, rows, rows, "-"@, "-"@, "-"@)
    } else {
        let d = diffs[i - 1];
        overview_row(
            w,
            ms[i].source,
            rows,
            text::decimal(d.added),
            text::decimal(d.removed),
            text::decimal(d.changed_accounts),
            text::decimal(d.changed_cells),
        )
    }
}

/// The names of the months' files.
pub open spec fn month_names(ms: Seq<Month>) -> Seq<Seq<char>> {
    Seq::new(ms.len(), |i: int| ms[i].source)
}

/// The overview of all months.
pub open spec fn per_file_text(ms: Seq<Month>, diffs: Seq<DiffFacts>) -> Seq<char> {
    let w = text::widest(month_names(ms), 4);
    "per-file overview (vs previous month):\n"@ + overview_row(
        w,
        "file"@,
        "rows"@,
        "new"@,
        "removed"@,
        "chg-acct"@,
        "chg-cell"@,
    ) + "\n"@ + text::lines(Seq::new(ms.len(), |i: int| month_row(w, ms, diffs, i))) + "\n"@
}

/// What the steps from month to month change.
pub open spec fn diffs_view(diffs: Seq<Diff>) -> Seq<DiffFacts> {
    Seq::new(diffs.len(), |t: int| diffs[t]@)
}

/// The larger of a width and the bytes that a text takes.
fn wider(w: usize, s: &str) -> (out: usize)
    ensures
        out == if text::byte_len(s@) > w {
            text::byte_len(s@)
        } else {
            w as int
        },
{
    let n = s.len();
    if n > w {
        n
    } else {
        w
    }
}

pub fn write_per_file(out: &mut String, snaps: &[Snapshot], diffs: &[Diff])
    requires
        snaps@.len() <= diffs@.len() + 1,
        forall|i: int| 0 <= i < snaps@.len() ==> (#[trigger] snaps@[i]).values.wf(),
    ensures
        final(out)@ == old(out)@ + per_file_text(months::months(snaps@), diffs_view(diffs@)),
{
    let ghost ms = months::months(snaps@);
    let ghost ds = diffs_view(diffs@);
    let mut w: usize = 4;
    for i in 0..snaps.len()
        invariant
            ms == months::months(snaps@),
            w == text::widest(month_names(ms).take(i as int), 4),
    {
        w = wider(w, snaps[i].source.as_str());
        assert(month_names(ms).take(i + 1).drop_last() =~= month_names(ms).take(i as int));
    }
    assert(month_names(ms).take(ms.len() as int) =~= month_names(ms));
    let mut list = String::new();
    let ghost lines = Seq::new(ms.len(), |i: int| month_row(w as int, ms, ds, i));
    for i in 0..snaps.len()
        invariant
            ms == months::months(snaps@),
            ds == diffs_view(diffs@),
            snaps@.len() <= diffs@.len() + 1,
            forall|i: int| 0 <= i < snaps@.len() ==> (#[trigger] snaps@[i]).values.wf(),
            lines == Seq::new(ms.len(), |i: int| month_row(w as int, ms, ds, i)),
            list@ == text::lines(lines.take(i as int)),
    {
        let snap = &snaps[i];
        assert(ms[i as int].values.dom() =~= snap.values@.dom());
        let rows = text::decimal_text(snap.values.len() as u128);
        let line = if i == 0 {
            overview_line(w, snap.source.as_str(), rows.as_str(), rows.as_str(), "-", "-", "-")
        } else {
            let d = &diffs[i - 1];
            assert(ds[i - 1] == d@);
            overview_line(
                w,
                snap.source.as_str(),
                rows.as_str(),
                text::decimal_text(d.added as u128).as_str(),
                text::decimal_text(d.removed as u128).as_str(),
                text::decimal_text(d.changed_accounts as u128).as_str(),
                text::decimal_text(d.changed_cells).as_str(),
            )
        };
        list.append(line.as_str());
        list.push('\n');
        assert(lines.take(i + 1).drop_last() =~= lines.take(i as int));
        assert(lines.take(i + 1).last() == line@);
    }
    assert(lines.take(lines.len() as int) =~= lines);
    let title = overview_line(w, "file", "rows", "new", "removed", "chg-acct", "chg-cell");
    let mut section = "per-file overview (vs previous month):\n".to_owned();
    section.append(title.as_str());
    section.append("\n");
    section.append(list.as_str());
    section.append("\n");
    out.append(section.as_str());
}

/// The identifiers of some columns.
pub open spec fn idents(attrs: Seq<ColumnFacts>) -> Seq<Seq<char>> {
    Seq::new(attrs.len(), |a: int| attrs[a].ident)
}

/// The width of the column of identifiers.
fn ident_width(attrs: &[Column]) -> (out: usize)
    ensures
        out == text::widest(idents(crate::infer::columns_view(attrs@)), 9),
{
    let ghost names = idents(crate::infer::columns_view(attrs@));
    let mut w: usize = 9;
    for a in 0..attrs.len()
        invariant
            names == idents(crate::infer::columns_view(attrs@)),
            w == text::widest(names.take(a as int), 9),
    {
        w = wider(w, attrs[a].ident.as_str());
        assert(names.take(a + 1).drop_last() =~= names.take(a as int));
    }
    assert(names.take(names.len() as int) =~= names);
    w
}

/// The number of distinct values, as far as it is known.
pub open spec fn distinct_count(p: profile::Facts) -> Seq<char> {
    if p.distinct_overflow {
        ">"@ + text::decimal(p.enum_cap)
    } else {
        text::decimal(p.distinct)
    }
}

/// The recommendation for a number of distinct values.
pub open spec fn cardinality_tag(c: Cardinality) -> Seq<char> {
    match c {
        Cardinality::Enum => "enum candidate (<5)"@,
        Cardinality::Borderline => "borderline (5-10)"@,
        Cardinality::Table => "lookup table candidate (>10)"@,
    }
}

/// The number of distinct values. The natural key is a table by definition,
/// so only attributes get the enum-vs-table recommendation.
pub open spec fn verdict(p: profile::Facts, is_key: bool) -> Seq<char> {
    if is_key {
        "distinct "@ + distinct_count(p)
    } else {
        "distinct "@ + distinct_count(p) + " -> "@ + cardinality_tag(
            profile::cardinality_of(p.distinct, p.distinct_overflow),
        )
    }
}

/// A range with a word for one of a single value.
pub open spec fn range_text(
    single: Seq<char>,
    range: Option<(Seq<char>, Seq<char>)>,
) -> Seq<Seq<char>> {
    match range {
        Some((lo, hi)) => seq![
            if lo == hi {
                single + lo
            } else {
                "range "@ + lo + " .. "@ + hi
            },
        ],
        None => seq![],
    }
}

pub open spec fn scale_text(scale: Option<(nat, nat)>) -> Seq<Seq<char>> {
    match scale {
        Some((p, s)) => seq![
            "fits numeric("@ + text::decimal(p) + ","@ + text::decimal(s) + ")"@,
        ],
        None => seq![],
    }
}

pub open spec fn length_text(range: Option<(nat, nat)>) -> Seq<Seq<char>> {
    match range {
        Some((lo, hi)) => seq![
            if lo == hi {
                "length "@ + text::decimal(lo)
            } else {
                "length "@ + text::decimal(lo) + "-"@ + text::decimal(hi)
            },
        ],
        None => seq![],
    }
}

pub open spec fn class_text(label: Option<Seq<char>>) -> Seq<Seq<char>> {
    match label {
        Some(l) => seq![l],
        None => seq![],
    }
}

/// The share of missing cells, where there are any. They matter for the NOT
/// NULL decision, which a key does not need.
pub open spec fn null_text(p: profile::Facts, is_key: bool) -> Seq<Seq<char>> {
    if !is_key && p.null_count > 0 {
        seq![
            text::decimal(p.null_count) + "/"@ + text::decimal(p.non_null + p.null_count)
                + " null"@,
        ]
    } else {
        seq![]
    }
}

/// What the profile of a column suggests, part by part.
pub open spec fn detail_parts(col: ColumnFacts, is_key: bool) -> Seq<Seq<char>> {
    let p = col.profile;
    seq![verdict(p, is_key)] + range_text("value "@, p.num_range) + scale_text(p.num_scale)
        + range_text("date "@, p.temporal_range) + (if col.ty == ColType::Text {
        length_text(p.len_range) + class_text(profile::label_of(p.classes))
    } else {
        seq![]
    }) + null_text(p, is_key)
}

fn push_range(parts: &mut Vec<String>, single: &str, range: &Option<(String, String)>)
    ensures
        text::texts(final(parts)@) == text::texts(old(parts)@) + range_text(
            single@,
            profile::text_pair(*range),
        ),
{
    if let Some((lo, hi)) = range {
        if text::same(lo.as_str(), hi.as_str()) {
            let mut part = single.to_owned();
            part.append(lo.as_str());
            parts.push(part);
        } else {
            let mut part = "range ".to_owned();
            part.append(lo.as_str());
            part.append(" .. ");
            part.append(hi.as_str());
            parts.push(part);
        }
    }
    assert(text::texts(parts@) =~= text::texts(old(parts)@) + range_text(
        single@,
        profile::text_pair(*range),
    ));
}

fn push_scale(parts: &mut Vec<String>, scale: Option<(usize, usize)>)
    ensures
        text::texts(final(parts)@) == text::texts(old(parts)@) + scale_text(
            profile::count_pair(scale),
        ),
{
    if let Some((precision, scale)) = scale {
        let mut part = "fits numeric(".to_owned();
        part.append(text::decimal_text(precision as u128).as_str());
        part.append(",");
        part.append(text::decimal_text(scale as u128).as_str());
        part.append(")");
        parts.push(part);
    }
    assert(text::texts(parts@) =~= text::texts(old(parts)@) + scale_text(
        profile::count_pair(scale),
    ));
}

fn push_length(parts: &mut Vec<String>, range: Option<(usize, usize)>)
    ensures
        text::texts(final(parts)@) == text::texts(old(parts)@) + length_text(
            profile::count_pair(range),
        ),
{
    if let Some((lo, hi)) = range {
        let mut part = "length ".to_owned();
        part.append(text::decimal_text(lo as u128).as_str());
        if lo != hi {
            part.append("-");
            part.append(text::decimal_text(hi as u128).as_str());
        }
        parts.push(part);
    }
    assert(text::texts(parts@) =~= text::texts(old(parts)@) + length_text(
        profile::count_pair(range),
    ));
}

fn push_class(parts: &mut Vec<String>, classes: CharClasses)
    ensures
        text::texts(final(parts)@) == text::texts(old(parts)@) + class_text(
            profile::label_of(classes),
        ),
{
    if let Some(label) = classes.label() {
        parts.push(label.to_owned());
    }
    assert(text::texts(parts@) =~= text::texts(old(parts)@) + class_text(
        profile::label_of(classes),
    ));
}

fn push_nulls(parts: &mut Vec<String>, p: &Profile, is_key: bool)
    ensures
        text::texts(final(parts)@) == text::texts(old(parts)@) + null_text(p@, is_key),
{
    if !is_key && p.null_count > 0 {
        let mut part = text::decimal_text(p.null_count as u128);
        part.append("/");
        part.append(text::decimal_text(p.non_null as u128 + p.null_count as u128).as_str());
        part.append(" null");
        parts.push(part);
    }
    assert(text::texts(parts@) =~= text::texts(old(parts)@) + null_text(p@, is_key));
}

fn verdict_line(p: &Profile, is_key: bool) -> (out: String)
    ensures
        out@ == verdict(p@, is_key),
{
    let distinct = if p.distinct_overflow {
        let mut more = ">".to_owned();
        more.append(text::decimal_text(p.enum_cap as u128).as_str());
        more
    } else {
        text::decimal_text(p.distinct as u128)
    };
    let mut out = "distinct ".to_owned();
    out.append(distinct.as_str());
    if !is_key {
        out.append(" -> ");
        match p.cardinality() {
            Cardinality::Enum => out.append("enum candidate (<5)"),
            Cardinality::Borderline => out.append("borderline (5-10)"),
            Cardinality::Table => out.append("lookup table candidate (>10)"),
        }
    }
    out
}

/// Assemble the indented constraint line for a column: cardinality verdict
/// plus whichever of range / length / character class apply.
pub fn constraint_detail(col: &Column, is_key: bool) -> (out: String)
    ensures
        out@ == text::joined(detail_parts(col@, is_key), "  ·  "@),
{
    let p = &col.profile;
    let mut parts: Vec<String> = Vec::new();
    parts.push(verdict_line(p, is_key));
    assert(text::texts(parts@) =~= seq![verdict(p@, is_key)]);
    push_range(&mut parts, "value ", &p.num_range);
    push_scale(&mut parts, p.num_scale);
    push_range(&mut parts, "date ", &p.temporal_range);
    let ghost front = text::texts(parts@);
    let is_text = matches!(col.ty, ColType::Text);
    if is_text {
        push_length(&mut parts, p.len_range);
        push_class(&mut parts, p.classes);
    }
    let ghost only_text = if is_text {
        length_text(p@.len_range) + class_text(profile::label_of(p@.classes))
    } else {
        seq![]
    };
    assert(text::texts(parts@) =~= front + only_text);
    push_nulls(&mut parts, p, is_key);
    text::join(parts.as_slice(), "  ·  ")
}

/// Whether a column may be missing, in words.
pub open spec fn null_word(col: ColumnFacts, is_key: bool) -> Seq<char> {
    if is_key {
        "key"@
    } else if col.nullable {
        "nullable"@
    } else {
        "not null"@
    }
}

/// The two lines of a column.
pub open spec fn column_text(col: ColumnFacts, w: int, is_key: bool) -> Seq<char> {
    "  "@ + text::pad_right(col.ident, w) + "  "@ + text::pad_right(scalar::sql_name(col.ty), 12)
        + " "@ + null_word(col, is_key) + "\n  "@ + text::pad_right(""@, w) + "    "@ + text::joined(
        detail_parts(col, is_key),
        "  ·  "@,
    ) + "\n"@
}

pub fn write_column_row(out: &mut String, col: &Column, w: usize, is_key: bool)
    ensures
        final(out)@ == old(out)@ + column_text(col@, w as int, is_key),
{
    let null = if is_key {
        "key"
    } else if col.nullable {
        "nullable"
    } else {
        "not null"
    };
    let mut row = "  ".to_owned();
    row.append(text::padded_right(col.ident.as_str(), w).as_str());
    row.append("  ");
    row.append(text::padded_right(col.ty.sql(), 12).as_str());
    row.append(" ");
    row.append(null);
    row.append("\n  ");
    row.append(text::padded_right("", w).as_str());
    row.append("    ");
    row.append(constraint_detail(col, is_key).as_str());
    row.append("\n");
    out.append(row.as_str());
}

/// The rows of the attributes, one after the other.
pub open spec fn attrs_text(attrs: Seq<ColumnFacts>, w: int) -> Seq<char>
    decreases attrs.len(),
{
    if attrs.len() == 0 {
        seq![]
    } else {
        attrs_text(attrs.drop_last(), w) + column_text(attrs.last(), w, false)
    }
}

/// Every column with its type and what its values suggest.
pub open spec fn columns_text(schema: SchemaFacts) -> Seq<char> {
    let w = text::widest(idents(schema.attrs).push(schema.key.ident), 9);
    "columns & inferred constraints ("@ + text::decimal(schema.attrs.len())
        + " attributes + key):\n"@ + column_text(schema.key, w, true) + attrs_text(schema.attrs, w)
        + "\n"@
}

pub fn write_columns(out: &mut String, schema: &Schema)
    ensures
        final(out)@ == old(out)@ + columns_text(schema@),
{
    let ghost attrs = schema@.attrs;
    let w = wider(ident_width(schema.attrs.as_slice()), schema.key.ident.as_str());
    assert(idents(attrs).push(schema@.key.ident).drop_last() =~= idents(attrs));
    let mut rows = String::new();
    for a in 0..schema.attrs.len()
        invariant
            attrs == schema@.attrs,
            rows@ == attrs_text(attrs.take(a as int), w as int),
    {
        write_column_row(&mut rows, &schema.attrs[a], w, false);
        assert(attrs.take(a + 1).drop_last() =~= attrs.take(a as int));
    }
    assert(attrs.take(attrs.len() as int) =~= attrs);
    let mut section = "columns & inferred constraints (".to_owned();
    section.append(text::decimal_text(schema.attrs.len() as u128).as_str());
    section.append(" attributes + key):\n");
    write_column_row(&mut section, &schema.key, w, true);
    section.append(rows.as_str());
    section.append("\n");
    out.append(section.as_str());
}

/// How many accounts changed an attribute in each step.
pub open spec fn change_counts(diffs: Seq<DiffFacts>, a: int) -> Seq<nat> {
    Seq::new(diffs.len(), |t: int| diffs[t].changes[a].len())
}

/// Whether an attribute changes in any step.
pub open spec fn ever_changes(diffs: Seq<DiffFacts>, a: int) -> bool {
    exists|t: int| 0 <= t < diffs.len() && (#[trigger] diffs[t]).changes[a].len() > 0
}

/// Cells of a table row, each filled up to seven characters.
pub open spec fn table_cells(cells: Seq<Seq<char>>) -> Seq<char>
    decreases cells.len(),
{
    if cells.len() == 0 {
        seq![]
    } else {
        table_cells(cells.drop_last()) + "  "@ + text::pad_left(cells.last(), 7)
    }
}

/// A table row: a name, and a cell for each step.
pub open spec fn table_row(w: int, name: Seq<char>, cells: Seq<Seq<char>>) -> Seq<char> {
    "  "@ + text::pad_right(name, w) + table_cells(cells)
}

/// The rows of the first `n` attributes, without those that never change.
pub open spec fn change_rows(
    attrs: Seq<ColumnFacts>,
    diffs: Seq<DiffFacts>,
    w: int,
    n: nat,
) -> Seq<Seq<char>>
    decreases n,
{
    if n == 0 {
        seq![]
    } else {
        let front = change_rows(attrs, diffs, w, (n - 1) as nat);
        if ever_changes(diffs, n - 1) {
            let counts = change_counts(diffs, n - 1);
            front.push(
                table_row(
                    w,
                    attrs[n - 1].ident,
                    Seq::new(counts.len(), |t: int| text::decimal(counts[t])),
                ),
            )
        } else {
            front
        }
    }
}

/// How many accounts changed each attribute, step by step.
pub open spec fn attr_changes_text(attrs: Seq<ColumnFacts>, diffs: Seq<DiffFacts>) -> Seq<char> {
    if diffs.len() == 0 {
        seq![]
    } else {
        let w = text::widest(idents(attrs), 9);
        "attribute changes (accounts changed, per transition):\n"@ + table_row(
            w,
            "attribute"@,
            Seq::new(diffs.len(), |t: int| step_label(t as nat)),
        ) + "\n"@ + text::lines(change_rows(attrs, diffs, w, attrs.len())) + "\n"@
    }
}

/// Every step tells the changes of each of `n_attr` attributes.
pub open spec fn complete(diffs: Seq<DiffFacts>, n_attr: nat) -> bool {
    forall|t: int| 0 <= t < diffs.len() ==> (#[trigger] diffs[t]).changes.len() == n_attr
}

fn changes_in(diffs: &[Diff], a: usize) -> (out: bool)
    requires
        forall|t: int| 0 <= t < diffs@.len() ==> a < (#[trigger] diffs@[t]).changes@.len(),
    ensures
        out == ever_changes(diffs_view(diffs@), a as int),
{
    let ghost ds = diffs_view(diffs@);
    for t in 0..diffs.len()
        invariant
            ds == diffs_view(diffs@),
            forall|t: int| 0 <= t < diffs@.len() ==> a < (#[trigger] diffs@[t]).changes@.len(),
            forall|s: int| 0 <= s < t ==> (#[trigger] ds[s]).changes[a as int].len() == 0,
    {
        assert(ds[t as int] == diffs@[t as int]@);
        if diffs[t].changes[a].len() > 0 {
            assert(ds[t as int].changes[a as int].len() > 0);
            return true;
        }
    }
    false
}

pub fn write_attr_changes(out: &mut String, schema: &Schema, diffs: &[Diff])
    requires
        complete(diffs_view(diffs@), schema@.attrs.len()),
    ensures
        final(out)@ == old(out)@ + attr_changes_text(schema@.attrs, diffs_view(diffs@)),
{
    let ghost attrs = schema@.attrs;
    let ghost ds = diffs_view(diffs@);
    let n_trans = diffs.len();
    if n_trans == 0 {
        assert(out@ =~= out@ + attr_changes_text(attrs, ds));
        return;
    }
    let w = ident_width(schema.attrs.as_slice());
    let mut heads = String::new();
    let ghost labels = Seq::new(ds.len(), |t: int| step_label(t as nat));
    for t in 0..n_trans
        invariant
            n_trans == diffs@.len(),
            labels == Seq::new(n_trans as nat, |t: int| step_label(t as nat)),
            heads@ == table_cells(labels.take(t as int)),
    {
        heads.append("  ");
        heads.append(text::padded_left(step_text(t).as_str(), 7).as_str());
        assert(labels.take(t + 1).drop_last() =~= labels.take(t as int));
    }
    assert(labels.take(labels.len() as int) =~= labels);
    let mut rows = String::new();
    for a in 0..schema.attrs.len()
        invariant
            n_trans == diffs@.len(),
            attrs == schema@.attrs,
            ds == diffs_view(diffs@),
            complete(ds, attrs.len()),
            rows@ == text::lines(change_rows(attrs, ds, w as int, a as nat)),
    {
        let col = &schema.attrs[a];
        assert forall|t: int| 0 <= t < diffs@.len() implies a < (
        #[trigger] diffs@[t]).changes@.len() by {
            assert(ds[t].changes.len() == attrs.len());
        }
        if changes_in(diffs, a) {
            let ghost counts = change_counts(ds, a as int);
            let ghost cells = Seq::new(counts.len(), |t: int| text::decimal(counts[t]));
            let mut row = "  ".to_owned();
            row.append(text::padded_right(col.ident.as_str(), w).as_str());
            let mut shown = String::new();
            for t in 0..n_trans
                invariant
                    n_trans == diffs@.len(),
                    ds == diffs_view(diffs@),
                    counts == change_counts(ds, a as int),
                    cells == Seq::new(counts.len(), |t: int| text::decimal(counts[t])),
                    forall|t: int|
                        0 <= t < diffs@.len() ==> a < (#[trigger] diffs@[t]).changes@.len(),
                    shown@ == table_cells(cells.take(t as int)),
            {
                assert(ds[t as int] == diffs@[t as int]@);
                shown.append("  ");
                let count = text::decimal_text(diffs[t].changes[a].len() as u128);
                shown.append(text::padded_left(count.as_str(), 7).as_str());
                assert(cells.take(t + 1).drop_last() =~= cells.take(t as int));
            }
            assert(cells.take(cells.len() as int) =~= cells);
            row.append(shown.as_str());
            rows.append(row.as_str());
            rows.push('\n');
            proof {
                let all = change_rows(attrs, ds, w as int, (a + 1) as nat);
                assert(all.last() == row@);
                assert(all.drop_last() =~= change_rows(attrs, ds, w as int, a as nat));
            }
        }
    }
    let mut section = "attribute changes (accounts changed, per transition):\n".to_owned();
    let mut head = "  ".to_owned();
    head.append(text::padded_right("attribute", w).as_str());
    head.append(heads.as_str());
    section.append(head.as_str());
    section.append("\n");
    section.append(rows.as_str());
    section.append("\n");
    out.append(section.as_str());
}

/// Up to `max` of the items, and how many more there are.
pub open spec fn capped(items: Seq<Seq<char>>, max: int) -> Seq<char> {
    if items.len() <= max {
        text::joined(items, ", "@)
    } else {
        text::joined(items.take(max), ", "@) + ", … and "@ + text::decimal(
            (items.len() - max) as nat,
        ) + " more"@
    }
}

fn cap(items: &[String], max: usize) -> (out: String)
    ensures
        out@ == capped(text::texts(items@), max as int),
{
    if items.len() <= max {
        return text::join(items, ", ");
    }
    let mut shown: Vec<String> = Vec::new();
    for i in 0..max
        invariant
            max < items@.len(),
            shown@ == items@.take(i as int),
    {
        shown.push(items[i].clone());
        assert(items@.take(i + 1) =~= items@.take(i as int).push(items@[i as int]));
    }
    assert(text::texts(shown@) =~= text::texts(items@).take(max as int));
    let mut out = text::join(shown.as_slice(), ", ");
    out.append(", … and ");
    out.append(text::decimal_text((items.len() - max) as u128).as_str());
    out.append(" more");
    out
}

/// A change in words.
pub open spec fn change_text(c: ChangeFacts) -> Seq<char> {
    c.key + ": "@ + c.old_cell + " -> "@ + c.new_cell
}

/// How many changes of an attribute to list for each step before collapsing
/// the rest into `… and N more`.
pub const SAMPLE_MAX: usize = 10;

/// The changes of an attribute in one step.
pub open spec fn step_line(t: nat, changes: Seq<ChangeFacts>) -> Seq<char> {
    "    "@ + step_label(t) + ":  "@ + capped(
        Seq::new(changes.len(), |i: int| change_text(changes[i])),
        SAMPLE_MAX as int,
    )
}

/// The changes of an attribute in the first `n` steps, without the steps that
/// do not change it.
pub open spec fn step_lines(diffs: Seq<DiffFacts>, a: int, n: nat) -> Seq<Seq<char>>
    decreases n,
{
    if n == 0 {
        seq![]
    } else {
        let front = step_lines(diffs, a, (n - 1) as nat);
        let changes = diffs[n - 1].changes[a];
        if changes.len() > 0 {
            front.push(step_line((n - 1) as nat, changes))
        } else {
            front
        }
    }
}

/// The value transitions of the first `n` attributes, without those that
/// never change.
pub open spec fn transition_lines(
    attrs: Seq<ColumnFacts>,
    diffs: Seq<DiffFacts>,
    n: nat,
) -> Seq<char>
    decreases n,
{
    if n == 0 {
        seq![]
    } else {
        let front = transition_lines(attrs, diffs, (n - 1) as nat);
        if ever_changes(diffs, n - 1) {
            front + "  "@ + attrs[n - 1].ident + ":\n"@ + text::lines(
                step_lines(diffs, n - 1, diffs.len()),
            )
        } else {
            front
        }
    }
}

/// Whether any of the first `n` attributes changes in any step.
pub open spec fn anything_changes(diffs: Seq<DiffFacts>, n: nat) -> bool {
    exists|a: int| 0 <= a < n && #[trigger] ever_changes(diffs, a)
}

/// The actual changes, attribute by attribute and step by step.
pub open spec fn transitions_text(attrs: Seq<ColumnFacts>, diffs: Seq<DiffFacts>) -> Seq<char> {
    if anything_changes(diffs, attrs.len()) {
        "value transitions (up to "@ + text::decimal(SAMPLE_MAX as nat)
            + " per attribute per month):\n"@ + transition_lines(attrs, diffs, attrs.len())
            + "\n"@
    } else {
        seq![]
    }
}

fn changes_line(t: usize, changes: &[Change]) -> (out: String)
    requires
        t < usize::MAX,
    ensures
        out@ == step_line(t as nat, months::changes_view(changes@)),
{
    let ghost cs = months::changes_view(changes@);
    let mut items: Vec<String> = Vec::new();
    for i in 0..changes.len()
        invariant
            cs == months::changes_view(changes@),
            items@.len() == i,
            forall|j: int| 0 <= j < i ==> (#[trigger] items@[j])@ == change_text(cs[j]),
    {
        let c = &changes[i];
        let mut item = c.key.clone();
        item.append(": ");
        item.append(c.old_cell.as_str());
        item.append(" -> ");
        item.append(c.new_cell.as_str());
        items.push(item);
    }
    assert(text::texts(items@) =~= Seq::new(cs.len(), |i: int| change_text(cs[i])));
    let mut line = "    ".to_owned();
    line.append(step_text(t).as_str());
    line.append(":  ");
    line.append(cap(items.as_slice(), SAMPLE_MAX).as_str());
    line
}

/// Per-attribute, per-transition list of the actual `key: old -> new` value
/// changes, capped at [`SAMPLE_MAX`] each.
pub fn write_transitions(out: &mut String, schema: &Schema, diffs: &[Diff])
    requires
        complete(diffs_view(diffs@), schema@.attrs.len()),
    ensures
        final(out)@ == old(out)@ + transitions_text(schema@.attrs, diffs_view(diffs@)),
{
    let ghost attrs = schema@.attrs;
    let ghost ds = diffs_view(diffs@);
    let n_trans = diffs.len();
    let mut any = false;
    let mut body = String::new();
    for a in 0..schema.attrs.len()
        invariant
            n_trans == diffs@.len(),
            attrs == schema@.attrs,
            ds == diffs_view(diffs@),
            complete(ds, attrs.len()),
            any == anything_changes(ds, a as nat),
            body@ == transition_lines(attrs, ds, a as nat),
    {
        assert forall|t: int| 0 <= t < diffs@.len() implies a < (
        #[trigger] diffs@[t]).changes@.len() by {
            assert(ds[t].changes.len() == attrs.len());
        }
        let changes = changes_in(diffs, a);
        if changes {
            let mut list = String::new();
            for t in 0..n_trans
                invariant
                    n_trans == diffs@.len(),
                    ds == diffs_view(diffs@),
                    forall|t: int|
                        0 <= t < diffs@.len() ==> a < (#[trigger] diffs@[t]).changes@.len(),
                    list@ == text::lines(step_lines(ds, a as int, t as nat)),
            {
                assert(ds[t as int] == diffs@[t as int]@);
                let step = diffs[t].changes[a].as_slice();
                if step.len() > 0 {
                    let line = changes_line(t, step);
                    list.append(line.as_str());
                    list.push('\n');
                    proof {
                        let all = step_lines(ds, a as int, (t + 1) as nat);
                        assert(all.last() == line@);
                        assert(all.drop_last() =~= step_lines(ds, a as int, t as nat));
                    }
                }
            }
            body.append("  ");
            body.append(schema.attrs[a].ident.as_str());
            body.append(":\n");
            body.append(list.as_str());
            any = true;
            assert(ever_changes(ds, a as int));
        }
        proof {
            if any && !changes {
                let b = choose|b: int| 0 <= b < a && #[trigger] ever_changes(ds, b);
                assert(ever_changes(ds, b));
            }
        }
    }
    if !any {
        assert(out@ =~= out@ + transitions_text(attrs, ds));
        return;
    }
    let mut section = "value transitions (up to ".to_owned();
    section.append(text::decimal_text(SAMPLE_MAX as u128).as_str());
    section.append(" per attribute per month):\n");
    section.append(body.as_str());
    section.append("\n");
    out.append(section.as_str());
}

/// The values that the accounts of a month have in an attribute.
pub open spec fn values_in(accounts: Accounts, a: int) -> Set<Seq<char>> {
    Set::new(
        |v: Seq<char>| exists|k: Seq<char>| #[trigger]
            accounts.contains_key(k) && accounts[k][a] == Some(v),
    )
}

/// The values that an attribute has in any of the first `n` months.
pub open spec fn values_before(ms: Seq<Month>, a: int, n: nat) -> Set<Seq<char>>
    decreases n,
{
    if n == 0 {
        Set::empty()
    } else {
        values_before(ms, a, (n - 1) as nat).union(values_in(ms[n - 1].values, a))
    }
}

/// A value with the label of a month.
pub open spec fn dated(v: Seq<char>, i: nat) -> Seq<char> {
    v + " ("@ + label(i) + ")"@
}

/// The values of an attribute in the first `n` months, each with the month in
/// which it first appears: by month, and in lexical order within a month.
pub open spec fn appearances(ms: Seq<Month>, a: int, n: nat) -> Seq<Seq<char>>
    decreases n,
{
    if n == 0 {
        seq![]
    } else {
        let i = (n - 1) as nat;
        let fresh = order::ordered(
            values_in(ms[n - 1].values, a).difference(values_before(ms, a, i)),
        );
        appearances(ms, a, i) + Seq::new(fresh.len(), |j: int| dated(fresh[j], i))
    }
}

/// The lines of the first `n` attributes, without those that are not
/// enum-like.
pub open spec fn enum_lines(attrs: Seq<ColumnFacts>, ms: Seq<Month>, n: nat) -> Seq<Seq<char>>
    decreases n,
{
    if n == 0 {
        seq![]
    } else {
        let front = enum_lines(attrs, ms, (n - 1) as nat);
        if attrs[n - 1].enum_values is Some {
            front.push(
                "  "@ + attrs[n - 1].ident + ": "@ + text::joined(
                    appearances(ms, n - 1, ms.len()),
                    ", "@,
                ),
            )
        } else {
            front
        }
    }
}

/// When the values of the enum-like attributes first appear.
pub open spec fn enums_text(attrs: Seq<ColumnFacts>, ms: Seq<Month>) -> Seq<char> {
    let lines = enum_lines(attrs, ms, attrs.len());
    if lines.len() == 0 {
        seq![]
    } else {
        "distinct values & first appearance (mN = month a value first showed up):\n"@ + text::lines(
            lines,
        ) + "\n"@
    }
}

/// The values of an attribute in one month.
fn month_values(snap: &Snapshot, a: usize, Ghost(n_attr): Ghost<nat>) -> (out: TextSet)
    requires
        snap.wf(n_attr),
        a < n_attr,
    ensures
        out.wf(),
        out@ == values_in(snap@.values, a as int),
{
    let ghost accounts = snap@.values;
    proof {
        snap.values.lemma_entries();
    }
    let mut out = TextSet::new();
    for j in 0..snap.values.values.len()
        invariant
            snap.wf(n_attr),
            a < n_attr,
            accounts == snap@.values,
            forall|i: int|
                0 <= i < snap.values.keys@.len() ==> snap.values@.contains_key(
                    #[trigger] snap.values.keys@[i]@,
                ) && snap.values@[snap.values.keys@[i]@] == snap.values.values@[i],
            out.wf(),
            forall|v: Seq<char>| #[trigger]
                out@.contains(v) <==> exists|i: int|
                    0 <= i < j && profile::text_opt((#[trigger] snap.values.values@[i])@[a as int])
                        == Some(v),
    {
        let ghost was = out@;
        let row = &snap.values.values[j];
        assert(accounts.contains_key(snap.values.keys@[j as int]@));
        assert(accounts[snap.values.keys@[j as int]@] == months::cells_view(row@));
        assert(row@.len() == n_attr);
        if let Some(v) = &row[a] {
            out.insert(v.as_str());
        }
        assert forall|v: Seq<char>| #[trigger] out@.contains(v) <==> exists|i: int|
            0 <= i < j + 1 && profile::text_opt((#[trigger] snap.values.values@[i])@[a as int])
                == Some(v) by {
            if was.contains(v) {
                let i = choose|i: int|
                    0 <= i < j && profile::text_opt((#[trigger] snap.values.values@[i])@[a as int])
                        == Some(v);
                assert(profile::text_opt(snap.values.values@[i]@[a as int]) == Some(v));
            } else if out@.contains(v) {
                assert(profile::text_opt(snap.values.values@[j as int]@[a as int]) == Some(v));
            }
            if exists|i: int|
                0 <= i < j + 1 && profile::text_opt((#[trigger] snap.values.values@[i])@[a as int])
                    == Some(v) {
                let i = choose|i: int|
                    0 <= i < j + 1 && profile::text_opt(
                        (#[trigger] snap.values.values@[i])@[a as int],
                    ) == Some(v);
                if i < j {
                    assert(was.contains(v));
                }
            }
        }
    }
    assert forall|v: Seq<char>| out@.contains(v) == values_in(accounts, a as int).contains(v) by {
        if out@.contains(v) {
            let i = choose|i: int|
                0 <= i < snap.values.values@.len() && profile::text_opt(
                    (#[trigger] snap.values.values@[i])@[a as int],
                ) == Some(v);
            let k = snap.values.keys@[i]@;
            assert(accounts.contains_key(k));
            assert(accounts[k] == months::cells_view(snap.values.values@[i]@));
            assert(accounts[k].len() == n_attr);
            assert(accounts[k][a as int] == Some(v));
        }
        if values_in(accounts, a as int).contains(v) {
            let k = choose|k: Seq<char>| #[trigger]
                accounts.contains_key(k) && accounts[k][a as int] == Some(v);
            assert(snap.values@.contains_key(k));
            let q = text::texts(snap.values.keys@);
            assert(q.to_set().contains(k));
            let i = choose|i: int| 0 <= i < q.len() && q[i] == k;
            assert(snap.values.keys@[i]@ == k);
            assert(accounts[k] == months::cells_view(snap.values.values@[i]@));
            assert(accounts[k].len() == n_attr);
            assert(profile::text_opt(snap.values.values@[i]@[a as int]) == Some(v));
        }
    }
    assert(out@ =~= values_in(accounts, a as int));
    out
}

/// When each value of an attribute first appears.
fn list_appearances(snaps: &[Snapshot], a: usize, Ghost(n_attr): Ghost<nat>) -> (out: Vec<String>)
    requires
        months::all_wf(snaps@, n_attr),
        a < n_attr,
    ensures
        text::texts(out@) == appearances(months::months(snaps@), a as int, snaps@.len()),
{
    let ghost ms = months::months(snaps@);
    let mut seen = TextSet::new();
    let mut out: Vec<String> = Vec::new();
    assert(text::texts(out@) =~= seq![]);
    for i in 0..snaps.len()
        invariant
            months::all_wf(snaps@, n_attr),
            a < n_attr,
            ms == months::months(snaps@),
            seen.wf(),
            seen@ == values_before(ms, a as int, i as nat),
            text::texts(out@) == appearances(ms, a as int, i as nat),
    {
        let here = month_values(&snaps[i], a, Ghost(n_attr));
        let fresh = here.difference(&seen);
        let ghost before = out@;
        let ghost known = seen@;
        let ghost q = text::texts(fresh@);
        let ghost set = here@.difference(known);
        proof {
            order::lemma_ascending_len(text::texts(here.items@));
            order::lemma_ordered_exists(set);
            assert(q.take(0).to_set() =~= Set::empty());
            assert(known.union(Set::empty()) =~= known);
        }
        for j in 0..fresh.len()
            invariant
                q == text::texts(fresh@),
                seen.wf(),
                seen@ == known.union(q.take(j as int).to_set()),
                text::texts(out@) == text::texts(before) + Seq::new(
                    j as nat,
                    |m: int| dated(q[m], i as nat),
                ),
        {
            let mut item = fresh[j].clone();
            item.append(" (");
            item.append(label_text(i).as_str());
            item.append(")");
            let ghost was = out@;
            out.push(item);
            seen.insert(fresh[j].as_str());
            proof {
                assert(q.take(j + 1) =~= q.take(j as int).push(q[j as int]));
                order::lemma_push_set(q.take(j as int), q[j as int]);
                assert(seen@ =~= known.union(q.take(j + 1).to_set()));
                assert(text::texts(out@) =~= text::texts(was).push(item@));
                assert(text::texts(out@) =~= text::texts(before) + Seq::new(
                    (j + 1) as nat,
                    |m: int| dated(q[m], i as nat),
                ));
            }
        }
        proof {
            assert(q.take(q.len() as int) =~= q);
            assert(seen@ =~= known.union(here@));
            assert(ms[i as int] == snaps@[i as int]@);
        }
    }
    out
}

pub fn write_enums(out: &mut String, schema: &Schema, snaps: &[Snapshot])
    requires
        months::all_wf(snaps@, schema@.attrs.len()),
    ensures
        final(out)@ == old(out)@ + enums_text(schema@.attrs, months::months(snaps@)),
{
    let ghost attrs = schema@.attrs;
    let ghost ms = months::months(snaps@);
    let mut any = false;
    let mut body = String::new();
    for a in 0..schema.attrs.len()
        invariant
            attrs == schema@.attrs,
            ms == months::months(snaps@),
            months::all_wf(snaps@, attrs.len()),
            any == (enum_lines(attrs, ms, a as nat).len() > 0),
            body@ == text::lines(enum_lines(attrs, ms, a as nat)),
    {
        let col = &schema.attrs[a];
        if col.enum_values.is_some() {
            let items = list_appearances(snaps, a, Ghost(attrs.len()));
            let mut line = "  ".to_owned();
            line.append(col.ident.as_str());
            line.append(": ");
            line.append(text::join(items.as_slice(), ", ").as_str());
            body.append(line.as_str());
            body.push('\n');
            any = true;
            proof {
                let all = enum_lines(attrs, ms, (a + 1) as nat);
                assert(all.last() == line@);
                assert(all.drop_last() =~= enum_lines(attrs, ms, a as nat));
            }
        }
    }
    if !any {
        assert(out@ =~= out@ + enums_text(attrs, ms));
        return;
    }
    let mut section =
        "distinct values & first appearance (mN = month a value first showed up):\n".to_owned();
    section.append(body.as_str());
    section.append("\n");
    out.append(section.as_str());
}

/// The first month in which an account appears.
pub open spec fn first_month(ms: Seq<Month>, k: Seq<char>) -> Option<int>
    decreases ms.len(),
{
    if ms.len() == 0 {
        None
    } else {
        match first_month(ms.drop_last(), k) {
            Some(i) => Some(i),
            None => if ms.last().values.contains_key(k) {
                Some(ms.len() - 1)
            } else {
                None
            },
        }
    }
}

/// The last month in which an account appears.
pub open spec fn last_month(ms: Seq<Month>, k: Seq<char>) -> Option<int>
    decreases ms.len(),
{
    if ms.len() == 0 {
        None
    } else if ms.last().values.contains_key(k) {
        Some(ms.len() - 1)
    } else {
        last_month(ms.drop_last(), k)
    }
}

/// Whether an account appears in every month.
pub open spec fn persists(ms: Seq<Month>, k: Seq<char>) -> bool {
    forall|i: int| 0 <= i < ms.len() ==> (#[trigger] ms[i]).values.contains_key(k)
}

/// The accounts of all months.
pub open spec fn all_accounts(ms: Seq<Month>) -> Set<Seq<char>>
    decreases ms.len(),
{
    if ms.len() == 0 {
        Set::empty()
    } else {
        all_accounts(ms.drop_last()).union(ms.last().values.dom())
    }
}

/// A map tells for every account of all months what it is asked for.
pub open spec fn tells(
    m: Map<Seq<char>, usize>,
    ms: Seq<Month>,
    f: spec_fn(Seq<Month>, Seq<char>) -> Option<int>,
) -> bool {
    &&& m.dom() == all_accounts(ms)
    &&& forall|k: Seq<char>| #[trigger] m.contains_key(k) ==> f(ms, k) == Some(m[k] as int)
}

pub open spec fn by_first() -> spec_fn(Seq<Month>, Seq<char>) -> Option<int> {
    |ms: Seq<Month>, k: Seq<char>| first_month(ms, k)
}

pub open spec fn by_last() -> spec_fn(Seq<Month>, Seq<char>) -> Option<int> {
    |ms: Seq<Month>, k: Seq<char>| last_month(ms, k)
}

proof fn lemma_seen(ms: Seq<Month>, k: Seq<char>)
    ensures
        all_accounts(ms).contains(k) <==> first_month(ms, k) is Some,
        first_month(ms, k) is Some <==> last_month(ms, k) is Some,
        first_month(ms, k) matches Some(i) ==> 0 <= i < ms.len(),
        last_month(ms, k) matches Some(i) ==> 0 <= i < ms.len(),
    decreases ms.len(),
{
    if ms.len() > 0 {
        lemma_seen(ms.drop_last(), k);
    }
}

/// First and last file index in which each account appears.
pub fn lifecycle(snaps: &[Snapshot]) -> (out: (TextMap<usize>, TextMap<usize>))
    requires
        forall|i: int| 0 <= i < snaps@.len() ==> (#[trigger] snaps@[i]).values.wf(),
    ensures
        out.0.wf(),
        out.1.wf(),
        tells(out.0@, months::months(snaps@), by_first()),
        tells(out.1@, months::months(snaps@), by_last()),
{
    let ghost ms = months::months(snaps@);
    let mut first: TextMap<usize> = TextMap::new();
    let mut last: TextMap<usize> = TextMap::new();
    assert(tells(first@, ms.take(0), by_first()));
    assert(tells(last@, ms.take(0), by_last()));
    for i in 0..snaps.len()
        invariant
            ms == months::months(snaps@),
            forall|i: int| 0 <= i < snaps@.len() ==> (#[trigger] snaps@[i]).values.wf(),
            first.wf(),
            last.wf(),
            tells(first@, ms.take(i as int), by_first()),
            tells(last@, ms.take(i as int), by_last()),
    {
        let keys = &snaps[i].values.keys;
        let ghost q = text::texts(keys@);
        let ghost before = ms.take(i as int);
        let ghost after = ms.take(i + 1);
        let ghost first_was = first@;
        let ghost last_was = last@;
        proof {
            assert(after.drop_last() =~= before);
            assert(after.last() == snaps@[i as int]@);
            snaps@[i as int].values.lemma_entries();
            assert(after.last().values.dom() =~= q.to_set());
            assert(q.take(0).to_set() =~= Set::empty());
            assert(first_was.dom().union(Set::empty()) =~= first_was.dom());
            assert(last_was.dom().union(Set::empty()) =~= last_was.dom());
        }
        for j in 0..keys.len()
            invariant
                q == text::texts(keys@),
                first.wf(),
                last.wf(),
                first@.dom() == first_was.dom().union(q.take(j as int).to_set()),
                last@.dom() == last_was.dom().union(q.take(j as int).to_set()),
                forall|k: Seq<char>| #[trigger]
                    first@.contains_key(k) ==> first@[k] == if first_was.contains_key(k) {
                        first_was[k]
                    } else {
                        i
                    },
                forall|k: Seq<char>| #[trigger]
                    last@.contains_key(k) ==> last@[k] == if q.take(j as int).to_set().contains(k) {
                        i
                    } else {
                        last_was[k]
                    },
        {
            let key = keys[j].as_str();
            proof {
                assert(q.take(j + 1) =~= q.take(j as int).push(q[j as int]));
                order::lemma_push_set(q.take(j as int), q[j as int]);
                assert(q[j as int] == key@);
            }
            if first.get(key).is_none() {
                first.insert(key, i);
            }
            last.insert(key, i);
            proof {
                assert(first@.dom() =~= first_was.dom().union(q.take(j + 1).to_set()));
                assert(last@.dom() =~= last_was.dom().union(q.take(j + 1).to_set()));
            }
        }
        proof {
            assert(q.take(q.len() as int) =~= q);
            assert forall|k: Seq<char>| #[trigger] first@.contains_key(k) implies by_first()(
                after,
                k,
            ) == Some(first@[k] as int) by {
                lemma_seen(before, k);
            }
            assert forall|k: Seq<char>| #[trigger] last@.contains_key(k) implies by_last()(after, k)
                == Some(last@[k] as int) by {
                lemma_seen(before, k);
            }
        }
    }
    assert(ms.take(ms.len() as int) =~= ms);
    (first, last)
}

/// Render up to a handful of accounts, then `… and N more`.
pub open spec fn summary(items: Seq<Seq<char>>) -> Seq<char> {
    if items.len() == 0 {
        "none"@
    } else {
        capped(items, 12)
    }
}

pub fn summarize(items: &[String]) -> (out: String)
    ensures
        out@ == summary(text::texts(items@)),
{
    if items.len() == 0 {
        return "none".to_owned();
    }
    cap(items, 12)
}

/// The accounts that were not there in the first month, by key, each with the
/// month in which it came.
pub open spec fn added_later(ms: Seq<Month>) -> Seq<Seq<char>> {
    let keys = order::ordered(all_accounts(ms).filter(came_later(ms)));
    Seq::new(keys.len(), |j: int| dated(keys[j], (first_month(ms, keys[j])->0) as nat))
}

pub open spec fn came_later(ms: Seq<Month>) -> spec_fn(Seq<char>) -> bool {
    |k: Seq<char>| first_month(ms, k)->0 > 0
}

/// The accounts that are not there in the last month, by key, each with the
/// last month that it was seen.
pub open spec fn gone_early(ms: Seq<Month>) -> Seq<Seq<char>> {
    let keys = order::ordered(all_accounts(ms).filter(went_early(ms)));
    Seq::new(keys.len(), |j: int| last_dated(keys[j], (last_month(ms, keys[j])->0) as nat))
}

pub open spec fn went_early(ms: Seq<Month>) -> spec_fn(Seq<char>) -> bool {
    |k: Seq<char>| last_month(ms, k)->0 < ms.len() - 1
}

/// An account with the label of the last month that it was seen.
pub open spec fn last_dated(k: Seq<char>, i: nat) -> Seq<char> {
    k + " (last "@ + label(i) + ")"@
}

pub open spec fn in_every(ms: Seq<Month>) -> spec_fn(Seq<char>) -> bool {
    |k: Seq<char>| persists(ms, k)
}

/// How the accounts come and go.
pub open spec fn lifecycle_text(ms: Seq<Month>) -> Seq<char> {
    "account lifecycle:\n  distinct accounts: "@ + text::decimal(all_accounts(ms).len())
        + "\n  present in every month: "@ + text::decimal(
        all_accounts(ms).filter(in_every(ms)).len(),
    ) + "\n  added after first month: "@ + summary(added_later(ms))
        + "\n  gone before last month:  "@ + summary(gone_early(ms)) + "\n"@
}

fn in_all(snaps: &[Snapshot], key: &str) -> (out: bool)
    requires
        forall|i: int| 0 <= i < snaps@.len() ==> (#[trigger] snaps@[i]).values.wf(),
    ensures
        out == persists(months::months(snaps@), key@),
{
    let ghost ms = months::months(snaps@);
    for i in 0..snaps.len()
        invariant
            ms == months::months(snaps@),
            forall|i: int| 0 <= i < snaps@.len() ==> (#[trigger] snaps@[i]).values.wf(),
            forall|j: int| 0 <= j < i ==> (#[trigger] ms[j]).values.contains_key(key@),
    {
        assert(ms[i as int] == snaps@[i as int]@);
        if snaps[i].values.get(key).is_none() {
            assert(!ms[i as int].values.contains_key(key@));
            return false;
        }
    }
    true
}

pub fn write_lifecycle(
    out: &mut String,
    snaps: &[Snapshot],
    first_seen: &TextMap<usize>,
    last_seen: &TextMap<usize>,
)
    requires
        forall|i: int| 0 <= i < snaps@.len() ==> (#[trigger] snaps@[i]).values.wf(),
        first_seen.wf(),
        last_seen.wf(),
        tells(first_seen@, months::months(snaps@), by_first()),
        tells(last_seen@, months::months(snaps@), by_last()),
    ensures
        final(out)@ == old(out)@ + lifecycle_text(months::months(snaps@)),
{
    let ghost ms = months::months(snaps@);
    let ghost q = text::texts(first_seen.keys@);
    proof {
        first_seen.lemma_entries();
        last_seen.lemma_entries();
        reveal(Seq::filter);
    }
    let mut everywhere: usize = 0;
    let mut added: Vec<String> = Vec::new();
    assert(text::texts(added@) =~= seq![]);
    for j in 0..first_seen.keys.len()
        invariant
            ms == months::months(snaps@),
            forall|i: int| 0 <= i < snaps@.len() ==> (#[trigger] snaps@[i]).values.wf(),
            q == text::texts(first_seen.keys@),
            first_seen.keys@.len() == first_seen.values@.len(),
            tells(first_seen@, ms, by_first()),
            forall|i: int|
                0 <= i < first_seen.keys@.len() ==> first_seen@.contains_key(
                    #[trigger] first_seen.keys@[i]@,
                ) && first_seen@[first_seen.keys@[i]@] == first_seen.values@[i],
            everywhere <= j,
            everywhere == q.take(j as int).filter(in_every(ms)).len(),
            text::texts(added@) == Seq::new(
                q.take(j as int).filter(came_later(ms)).len(),
                |m: int|
                    dated(
                        q.take(j as int).filter(came_later(ms))[m],
                        (first_month(ms, q.take(j as int).filter(came_later(ms))[m])->0) as nat,
                    ),
            ),
    {
        let key = &first_seen.keys[j];
        let f = first_seen.values[j];
        proof {
            reveal(Seq::filter);
            assert(q.take(j + 1).drop_last() =~= q.take(j as int));
            assert(q.take(j + 1).last() == key@);
            assert(first_seen@.contains_key(key@));
            assert(by_first()(ms, key@) == Some(f as int));
        }
        if in_all(snaps, key.as_str()) {
            everywhere += 1;
        }
        if f > 0 {
            let mut item = key.clone();
            item.append(" (");
            item.append(label_text(f).as_str());
            item.append(")");
            let ghost was = added@;
            added.push(item);
            proof {
                let ks = q.take(j + 1).filter(came_later(ms));
                assert(ks == q.take(j as int).filter(came_later(ms)).push(key@));
                assert(text::texts(added@) =~= text::texts(was).push(item@));
                assert(text::texts(added@) =~= Seq::new(
                    ks.len(),
                    |m: int| dated(ks[m], (first_month(ms, ks[m])->0) as nat),
                ));
            }
        }
    }
    let last_file = snaps.len();
    let ghost r = text::texts(last_seen.keys@);
    let mut removed: Vec<String> = Vec::new();
    assert(text::texts(removed@) =~= seq![]);
    for j in 0..last_seen.keys.len()
        invariant
            ms == months::months(snaps@),
            last_file == ms.len(),
            r == text::texts(last_seen.keys@),
            last_seen.keys@.len() == last_seen.values@.len(),
            tells(last_seen@, ms, by_last()),
            forall|i: int|
                0 <= i < last_seen.keys@.len() ==> last_seen@.contains_key(
                    #[trigger] last_seen.keys@[i]@,
                ) && last_seen@[last_seen.keys@[i]@] == last_seen.values@[i],
            text::texts(removed@) == Seq::new(
                r.take(j as int).filter(went_early(ms)).len(),
                |m: int|
                    last_dated(
                        r.take(j as int).filter(went_early(ms))[m],
                        (last_month(ms, r.take(j as int).filter(went_early(ms))[m])->0) as nat,
                    ),
            ),
    {
        let key = &last_seen.keys[j];
        let l = last_seen.values[j];
        proof {
            reveal(Seq::filter);
            assert(r.take(j + 1).drop_last() =~= r.take(j as int));
            assert(r.take(j + 1).last() == key@);
            assert(last_seen@.contains_key(key@));
            assert(by_last()(ms, key@) == Some(l as int));
            lemma_seen(ms, key@);
        }
        if l < last_file - 1 {
            let mut item = key.clone();
            item.append(" (last ");
            item.append(label_text(l).as_str());
            item.append(")");
            let ghost was = removed@;
            removed.push(item);
            proof {
                let ks = r.take(j + 1).filter(went_early(ms));
                assert(ks == r.take(j as int).filter(went_early(ms)).push(key@));
                assert(text::texts(removed@) =~= text::texts(was).push(item@));
                assert(text::texts(removed@) =~= Seq::new(
                    ks.len(),
                    |m: int| last_dated(ks[m], (last_month(ms, ks[m])->0) as nat),
                ));
            }
        }
    }
    proof {
        assert(q.take(q.len() as int) =~= q);
        assert(r.take(r.len() as int) =~= r);
        order::lemma_ordered_filter(q, in_every(ms));
        order::lemma_ordered_filter(q, came_later(ms));
        order::lemma_ordered_filter(r, went_early(ms));
        assert(text::texts(added@) =~= added_later(ms));
        assert(text::texts(removed@) =~= gone_early(ms));
    }
    let mut section = "account lifecycle:\n  distinct accounts: ".to_owned();
    section.append(text::decimal_text(first_seen.len() as u128).as_str());
    section.append("\n  present in every month: ");
    section.append(text::decimal_text(everywhere as u128).as_str());
    section.append("\n  added after first month: ");
    section.append(summarize(added.as_slice()).as_str());
    section.append("\n  gone before last month:  ");
    section.append(summarize(removed.as_slice()).as_str());
    section.append("\n");
    out.append(section.as_str());
}

/// What each step from a month to the next changes.
pub open spec fn steps(ms: Seq<Month>, n_attr: nat) -> Seq<DiffFacts> {
    Seq::new(
        if ms.len() == 0 {
            0
        } else {
            (ms.len() - 1) as nat
        },
        |t: int| months::diff_of(ms[t].values, ms[t + 1].values, n_attr),
    )
}

/// The comparison report of the months.
pub open spec fn report_text(schema: SchemaFacts, ms: Seq<Month>) -> Seq<char> {
    let diffs = steps(ms, schema.attrs.len());
    header_text(schema, ms) + per_file_text(ms, diffs) + columns_text(schema) + attr_changes_text(
        schema.attrs,
        diffs,
    ) + transitions_text(schema.attrs, diffs) + enums_text(schema.attrs, ms) + lifecycle_text(ms)
}

/// Write the comparison report of the months.
pub fn render(schema: &Schema, snaps: &[Snapshot]) -> (out: String)
    requires
        months::all_wf(snaps@, schema@.attrs.len()),
    ensures
        out@ == report_text(schema@, months::months(snaps@)),
{
    let ghost ms = months::months(snaps@);
    let n_attr = schema.attrs.len();
    let n_trans: usize = if snaps.len() == 0 {
        0
    } else {
        snaps.len() - 1
    };
    let mut diffs: Vec<Diff> = Vec::new();
    for t in 0..n_trans
        invariant
            ms == months::months(snaps@),
            months::all_wf(snaps@, n_attr as nat),
            n_trans == if snaps@.len() == 0 {
                0
            } else {
                snaps@.len() - 1
            },
            diffs@.len() == t,
            forall|s: int|
                0 <= s < t ==> (#[trigger] diffs@[s])@ == months::diff_of(
                    ms[s].values,
                    ms[s + 1].values,
                    n_attr as nat,
                ),
    {
        diffs.push(months::diff(&snaps[t], &snaps[t + 1], n_attr));
    }
    assert(diffs_view(diffs@) =~= steps(ms, n_attr as nat));
    let (first_seen, last_seen) = lifecycle(snaps);
    let mut out = String::new();
    write_header(&mut out, schema, snaps);
    assert(out@ =~= header_text(schema@, ms));
    write_per_file(&mut out, snaps, diffs.as_slice());
    write_columns(&mut out, schema);
    write_attr_changes(&mut out, schema, diffs.as_slice());
    write_transitions(&mut out, schema, diffs.as_slice());
    write_enums(&mut out, schema, snaps);
    write_lifecycle(&mut out, snaps, &first_seen, &last_seen);
    out
}

/// Build the comparison report for `files`.
pub fn run(
    schema: &Schema,
    files: &[SourceFile],
    null_tokens: &[String],
    strict: bool,
) -> (out: Result<String>)
    ensures
        match months::months_of(schema@, files@, text::texts(null_tokens@), strict) {
            Ok(ms) => out matches Ok(report) && report@ == report_text(schema@, ms),
            Err(fault) => out matches Err(e) && e@ == fault,
        },
{
    match months::read_snapshots(schema, files, null_tokens, strict) {
        Ok(snaps) => Ok(render(schema, snaps.as_slice())),
        Err(e) => Err(e),
    }
}

/// Whether an attribute changes over time: some account has different cells
/// of it in two months.
pub open spec fn varies(ms: Seq<Month>, a: int) -> bool {
    exists|i: int, j: int, k: Seq<char>|
        0 <= i < j < ms.len() && #[trigger] months::changed_keys(
            ms[i].values,
            ms[j].values,
            a,
        ).contains(k)
}

proof fn lemma_first_month(ms: Seq<Month>, k: Seq<char>, i: int)
    requires
        0 <= i < ms.len(),
        ms[i].values.contains_key(k),
    ensures
        first_month(ms, k) matches Some(f) && 0 <= f <= i && ms[f].values.contains_key(k),
    decreases ms.len(),
{
    let p = ms.drop_last();
    lemma_seen(p, k);
    if i < p.len() {
        assert(p[i] == ms[i]);
        lemma_first_month(p, k, i);
        assert(p[first_month(p, k)->0] == ms[first_month(p, k)->0]);
    } else if first_month(p, k) is Some {
        lemma_first_holds(p, k);
        assert(p[first_month(p, k)->0] == ms[first_month(p, k)->0]);
    }
}

proof fn lemma_first_holds(ms: Seq<Month>, k: Seq<char>)
    ensures
        first_month(ms, k) matches Some(f) ==> 0 <= f < ms.len() && ms[f].values.contains_key(k),
    decreases ms.len(),
{
    if ms.len() > 0 {
        let p = ms.drop_last();
        lemma_first_holds(p, k);
        if let Some(f) = first_month(p, k) {
            assert(p[f] == ms[f]);
        }
    }
}

/// Whether an account's cell of an attribute differs from the first one seen.
spec fn strays(ms: Seq<Month>, i: int, k: Seq<char>, a: int) -> bool {
    ms[i].values[k][a] != ms[first_month(ms, k)->0].values[k][a]
}

/// Which attributes change over time.
pub fn changing(snaps: &[Snapshot], n_attr: usize) -> (out: Vec<bool>)
    requires
        months::all_wf(snaps@, n_attr as nat),
    ensures
        out@.len() == n_attr,
        forall|a: int| 0 <= a < n_attr ==> #[trigger] out@[a] == varies(months::months(snaps@), a),
{
    let ghost ms = months::months(snaps@);
    let (first_seen, _last_seen) = lifecycle(snaps);
    let mut out: Vec<bool> = Vec::new();
    for a in 0..n_attr
        invariant
            out@.len() == a,
            forall|b: int| 0 <= b < a ==> !#[trigger] out@[b],
    {
        out.push(false);
    }
    for i in 0..snaps.len()
        invariant
            ms == months::months(snaps@),
            months::all_wf(snaps@, n_attr as nat),
            first_seen.wf(),
            tells(first_seen@, ms, by_first()),
            out@.len() == n_attr,
            forall|a: int| 0 <= a < n_attr && #[trigger] out@[a] ==> varies(ms, a),
            forall|j: int, k: Seq<char>, a: int|
                0 <= j < i && 0 <= a < n_attr && ms[j].values.contains_key(k) && #[trigger] strays(
                    ms,
                    j,
                    k,
                    a,
                ) ==> out@[a],
    {
        let snap = &snaps[i];
        let ghost accounts = ms[i as int].values;
        proof {
            snap.values.lemma_entries();
            assert(ms[i as int] == snap@);
        }
        for x in 0..snap.values.keys.len()
            invariant
                ms == months::months(snaps@),
                i < snaps@.len(),
                snap == snaps@[i as int],
                accounts == ms[i as int].values,
                ms[i as int] == snap@,
                months::all_wf(snaps@, n_attr as nat),
                snap.values.keys@.len() == snap.values.values@.len(),
                forall|y: int|
                    0 <= y < snap.values.keys@.len() ==> snap.values@.contains_key(
                        #[trigger] snap.values.keys@[y]@,
                    ) && snap.values@[snap.values.keys@[y]@] == snap.values.values@[y],
                first_seen.wf(),
                tells(first_seen@, ms, by_first()),
                out@.len() == n_attr,
                forall|a: int| 0 <= a < n_attr && #[trigger] out@[a] ==> varies(ms, a),
                forall|j: int, k: Seq<char>, a: int|
                    0 <= j < i && 0 <= a < n_attr && ms[j].values.contains_key(k)
                        && #[trigger] strays(ms, j, k, a) ==> out@[a],
                forall|y: int, a: int|
                    0 <= y < x && 0 <= a < n_attr && #[trigger] strays(
                        ms,
                        i as int,
                        snap.values.keys@[y]@,
                        a,
                    ) ==> out@[a],
        {
            let key = snap.values.keys[x].as_str();
            proof {
                assert(accounts.contains_key(key@));
                lemma_first_month(ms, key@, i as int);
                lemma_seen(ms, key@);
                assert(first_seen@.contains_key(key@));
                assert(by_first()(ms, key@) == Some(first_seen@[key@] as int));
            }
            if let Some(first) = first_seen.get(key) {
                let ghost f = *first as int;
                if let Some(first_row) = snaps[*first].values.get(key) {
                    let row = &snap.values.values[x];
                    proof {
                        assert(ms[f] == snaps@[f]@);
                        assert(ms[f].values[key@] == months::cells_view(first_row@));
                        assert(accounts[key@] == months::cells_view(row@));
                        assert(snaps@[f].wf(n_attr as nat) && snap.wf(n_attr as nat));
                        assert(ms[f].values[key@].len() == n_attr);
                        assert(accounts[key@].len() == n_attr);
                    }
                    let ghost before = out@;
                    for a in 0..n_attr
                        invariant
                            0 <= f <= i < ms.len(),
                            first_month(ms, key@) == Some(f),
                            ms[f].values.contains_key(key@),
                            ms[i as int].values.contains_key(key@),
                            ms[f].values[key@] == months::cells_view(first_row@),
                            ms[i as int].values[key@] == months::cells_view(row@),
                            first_row@.len() == n_attr,
                            row@.len() == n_attr,
                            before.len() == n_attr,
                            out@.len() == n_attr,
                            forall|b: int| 0 <= b < n_attr && #[trigger] out@[b] ==> varies(ms, b),
                            forall|b: int| 0 <= b < n_attr && before[b] ==> #[trigger] out@[b],
                            forall|b: int|
                                0 <= b < a && #[trigger] strays(ms, i as int, key@, b) ==> out@[b],
                    {
                        if !months::same_cell(&first_row[a], &row[a]) {
                            assert(ms[f].values[key@][a as int] != ms[i as int].values[key@][
                            a as int]);
                            assert(months::changed_keys(
                                ms[f].values,
                                ms[i as int].values,
                                a as int,
                            ).contains(key@));
                            out.set(a, true);
                        }
                    }
                }
            }
        }
        proof {
            assert forall|j: int, k: Seq<char>, a: int|
                0 <= j < i + 1 && 0 <= a < n_attr && ms[j].values.contains_key(k)
                    && #[trigger] strays(ms, j, k, a) implies out@[a] by {
                if j == i {
                    let q = text::texts(snap.values.keys@);
                    assert(q.to_set().contains(k));
                    let y = choose|y: int| 0 <= y < q.len() && q[y] == k;
                    assert(snap.values.keys@[y]@ == k);
                    assert(strays(ms, i as int, snap.values.keys@[y]@, a));
                }
            }
        }
    }
    proof {
        assert forall|a: int| 0 <= a < n_attr && varies(ms, a) implies #[trigger] out@[a] by {
            let (i, j, k) = choose|i: int, j: int, k: Seq<char>|
                0 <= i < j < ms.len() && #[trigger] months::changed_keys(
                    ms[i].values,
                    ms[j].values,
                    a,
                ).contains(k);
            assert(strays(ms, i, k, a) || strays(ms, j, k, a));
        }
    }
    out
}

/// Which attributes of the schema change over time in `files`.
pub fn changing_columns(
    schema: &Schema,
    files: &[SourceFile],
    null_tokens: &[String],
    strict: bool,
) -> (out: Result<Vec<bool>>)
    ensures
        match months::months_of(schema@, files@, text::texts(null_tokens@), strict) {
            Ok(ms) => out matches Ok(changed) && changed@.len() == schema@.attrs.len() && (
            forall|a: int|
                0 <= a < schema@.attrs.len() ==> #[trigger] changed@[a] == varies(ms, a)),
            Err(fault) => out matches Err(e) && e@ == fault,
        },
{
    match months::read_snapshots(schema, files, null_tokens, strict) {
        Ok(snaps) => Ok(changing(snaps.as_slice(), schema.attrs.len())),
        Err(e) => Err(e),
    }
}

/// Every value that an account has in an attribute, in whichever month, is
/// listed with the month in which it first appears.
pub proof fn lemma_first_appearance(ms: Seq<Month>, a: int, i: int, v: Seq<char>)
    requires
        forall|j: int| 0 <= j < ms.len() ==> (#[trigger] ms[j]).values.dom().finite(),
        0 <= i < ms.len(),
        values_in(ms[i].values, a).contains(v),
    ensures
        exists|f: int|
            #![trigger dated(v, f as nat)]
            {
                &&& 0 <= f <= i
                &&& values_in(ms[f].values, a).contains(v)
                &&& forall|j: int|
                    0 <= j < f ==> !values_in((#[trigger] ms[j]).values, a).contains(v)
                &&& appearances(ms, a, ms.len()).contains(dated(v, f as nat))
            },
{
    let f = lemma_first_with_value(ms, a, i, v);
    lemma_values_before(ms, a, f as nat, v);
    let set = values_in(ms[f].values, a).difference(values_before(ms, a, f as nat));
    lemma_values_finite(ms[f].values, a);
    order::lemma_ordered_exists(set);
    let fresh = order::ordered(set);
    assert(fresh.to_set().contains(v));
    let j = choose|j: int| 0 <= j < fresh.len() && fresh[j] == v;
    let here = Seq::new(fresh.len(), |j: int| dated(fresh[j], f as nat));
    let upto = appearances(ms, a, (f + 1) as nat);
    assert(upto == appearances(ms, a, f as nat) + here);
    assert(upto[appearances(ms, a, f as nat).len() + j] == dated(v, f as nat));
    lemma_appearances_grow(ms, a, (f + 1) as nat, ms.len(), dated(v, f as nat));
}

proof fn lemma_first_with_value(ms: Seq<Month>, a: int, i: int, v: Seq<char>) -> (f: int)
    requires
        0 <= i < ms.len(),
        values_in(ms[i].values, a).contains(v),
    ensures
        0 <= f <= i,
        values_in(ms[f].values, a).contains(v),
        forall|j: int| 0 <= j < f ==> !values_in((#[trigger] ms[j]).values, a).contains(v),
    decreases i,
{
    if exists|j: int| 0 <= j < i && values_in((#[trigger] ms[j]).values, a).contains(v) {
        let j = choose|j: int| 0 <= j < i && values_in((#[trigger] ms[j]).values, a).contains(v);
        lemma_first_with_value(ms, a, j, v)
    } else {
        i
    }
}

proof fn lemma_values_before(ms: Seq<Month>, a: int, n: nat, v: Seq<char>)
    requires
        n <= ms.len(),
    ensures
        values_before(ms, a, n).contains(v) <==> exists|j: int|
            0 <= j < n && values_in((#[trigger] ms[j]).values, a).contains(v),
    decreases n,
{
    if n > 0 {
        lemma_values_before(ms, a, (n - 1) as nat, v);
        if exists|j: int| 0 <= j < n - 1 && values_in((#[trigger] ms[j]).values, a).contains(v) {
            let j = choose|j: int|
                0 <= j < n - 1 && values_in((#[trigger] ms[j]).values, a).contains(v);
            assert(values_in(ms[j].values, a).contains(v));
        }
        if values_in(ms[n - 1].values, a).contains(v) {
            assert(0 <= n - 1 < n && values_in(ms[n - 1].values, a).contains(v));
        }
    }
}

proof fn lemma_values_finite(accounts: Accounts, a: int)
    requires
        accounts.dom().finite(),
    ensures
        values_in(accounts, a).finite(),
{
    let cell = |k: Seq<char>| accounts[k][a]->0;
    let image = accounts.dom().map(cell);
    accounts.dom().lemma_map_finite(cell);
    assert forall|v: Seq<char>| values_in(accounts, a).contains(v) implies image.contains(v) by {
        let k = choose|k: Seq<char>| #[trigger]
            accounts.contains_key(k) && accounts[k][a] == Some(v);
        assert(cell(k) == v);
        assert(accounts.dom().contains(k));
    }
    vstd::set_lib::lemma_len_subset(values_in(accounts, a), image);
}

proof fn lemma_appearances_grow(ms: Seq<Month>, a: int, n: nat, m: nat, x: Seq<char>)
    requires
        n <= m,
        appearances(ms, a, n).contains(x),
    ensures
        appearances(ms, a, m).contains(x),
    decreases m,
{
    if n < m {
        lemma_appearances_grow(ms, a, n, (m - 1) as nat, x);
        let front = appearances(ms, a, (m - 1) as nat);
        let i = choose|i: int| 0 <= i < front.len() && front[i] == x;
        assert(appearances(ms, a, m)[i] == x);
    }
}

/// An account that is there in every month was neither added after the first
/// month nor gone before the last one.
pub proof fn lemma_persisting_account(ms: Seq<Month>, k: Seq<char>)
    requires
        ms.len() > 0,
        persists(ms, k),
    ensures
        all_accounts(ms).contains(k),
        !came_later(ms)(k),
        !went_early(ms)(k),
{
    assert(ms[0].values.contains_key(k));
    assert(ms[ms.len() - 1].values.contains_key(k));
    lemma_first_month(ms, k, 0);
    lemma_seen(ms, k);
}

/// An attribute for which some step lists a change is one that changes over
/// time.
pub proof fn lemma_listed_change_varies(ms: Seq<Month>, n_attr: nat, a: int)
    requires
        0 <= a < n_attr,
        forall|j: int| 0 <= j < ms.len() ==> (#[trigger] ms[j]).values.dom().finite(),
    ensures
        ever_changes(steps(ms, n_attr), a) ==> varies(ms, a),
{
    let diffs = steps(ms, n_attr);
    if ever_changes(diffs, a) {
        let t = choose|t: int| 0 <= t < diffs.len() && (#[trigger] diffs[t]).changes[a].len() > 0;
        let p = ms[t].values;
        let c = ms[t + 1].values;
        months::lemma_changes_exact(p, c, a);
        let list = months::changes_of(p, c, a);
        let keys = Seq::new(list.len(), |i: int| list[i].key);
        assert(keys.to_set().contains(keys[0]));
        assert(months::changed_keys(ms[t].values, ms[t + 1].values, a).contains(keys[0]));
    }
}

/// An attribute that does not change over time can be stored once: an account
/// has the same cell of it in every month in which it appears.
pub proof fn lemma_static_attr_constant(ms: Seq<Month>, a: int, k: Seq<char>, i: int, j: int)
    requires
        !varies(ms, a),
        0 <= i < ms.len(),
        0 <= j < ms.len(),
        ms[i].values.contains_key(k),
        ms[j].values.contains_key(k),
    ensures
        ms[i].values[k][a] == ms[j].values[k][a],
{
    if i < j {
        assert(!months::changed_keys(ms[i].values, ms[j].values, a).contains(k));
    } else if j < i {
        assert(!months::changed_keys(ms[j].values, ms[i].values, a).contains(k));
    }
}

/// An attribute that never changes is left out of the table of changes and of
/// the value transitions.
pub proof fn lemma_unchanged_attr_omitted(
    attrs: Seq<ColumnFacts>,
    diffs: Seq<DiffFacts>,
    w: int,
    a: nat,
)
    requires
        a < attrs.len(),
        !ever_changes(diffs, a as int),
    ensures
        change_rows(attrs, diffs, w, a + 1) == change_rows(attrs, diffs, w, a),
        transition_lines(attrs, diffs, a + 1) == transition_lines(attrs, diffs, a),
{
}

/// Each step of the report is from one month to the next: its counts balance
/// the accounts of these two months, and the changes that it lists for an
/// attribute are those of the accounts of both whose cells differ, in key
/// order, with the cells of the earlier and of the later one.
pub proof fn lemma_steps_are_between_neighbours(ms: Seq<Month>, n_attr: nat, t: int, a: int)
    requires
        0 <= t,
        t + 1 < ms.len(),
        0 <= a < n_attr,
        ms[t].values.dom().finite(),
        ms[t + 1].values.dom().finite(),
    ensures
        steps(ms, n_attr).len() == ms.len() - 1,
        ({
            let step = steps(ms, n_attr)[t];
            let prev = ms[t].values;
            let cur = ms[t + 1].values;
            let list = step.changes[a];
            &&& step == months::diff_of(prev, cur, n_attr)
            &&& prev.dom().len() + step.added == cur.dom().len() + step.removed
            &&& step.added == cur.dom().difference(prev.dom()).len()
            &&& forall|i: int|
                0 <= i < list.len() ==> {
                    let k = (#[trigger] list[i]).key;
                    &&& prev.contains_key(k)
                    &&& cur.contains_key(k)
                    &&& prev[k][a] != cur[k][a]
                    &&& list[i].old_cell == months::rendered(prev[k][a])
                    &&& list[i].new_cell == months::rendered(cur[k][a])
                }
            &&& forall|k: Seq<char>|
                prev.contains_key(k) && #[trigger] cur.contains_key(k) && prev[k][a] != cur[k][a]
                    ==> exists|i: int| 0 <= i < list.len() && (#[trigger] list[i]).key == k
            &&& forall|i: int, j: int|
                0 <= i < j < list.len() ==> order::precedes(
                    (#[trigger] list[i]).key,
                    (#[trigger] list[j]).key,
                )
        }),
{
    months::lemma_step_balance(ms[t].values, ms[t + 1].values, n_attr);
    months::lemma_changes_listed(ms[t].values, ms[t + 1].values, n_attr, a);
}

/// No months, or one, make no steps.
pub proof fn lemma_no_steps(ms: Seq<Month>, n_attr: nat)
    requires
        ms.len() <= 1,
    ensures
        steps(ms, n_attr).len() == 0,
{
}

/// The report has its sections in this order, each about the same schema,
/// months and steps.
pub proof fn lemma_report_sections(schema: SchemaFacts, ms: Seq<Month>)
    ensures
        report_text(schema, ms) == header_text(schema, ms) + per_file_text(
            ms,
            steps(ms, schema.attrs.len()),
        ) + columns_text(schema) + attr_changes_text(
            schema.attrs,
            steps(ms, schema.attrs.len()),
        ) + transitions_text(schema.attrs, steps(ms, schema.attrs.len())) + enums_text(
            schema.attrs,
            ms,
        ) + lifecycle_text(ms),
{
}

/// Months are numbered from one, and a step shows both of its months.
pub proof fn lemma_month_labels(i: nat)
    ensures
        label(i) == "m"@ + text::decimal(i + 1),
        step_label(i) == "m"@ + text::decimal(i + 1) + "->"@ + ("m"@ + text::decimal(i + 2)),
{
}

/// The title names the schema, the key with its type, and each file with its
/// number and instant.
pub proof fn lemma_header_text(schema: SchemaFacts, ms: Seq<Month>)
    ensures
        header_text(schema, ms) == "csv-pg-schema comparison report\n"@ + "schema: "@ + schema.name
            + "   key: "@ + schema.key.ident + " ("@ + scalar::sql_name(schema.key.ty)
            + ")   files: "@ + text::decimal(ms.len())
            + "\n\nfiles (mN = column label used below):\n"@ + text::lines(
            Seq::new(
                ms.len(),
                |i: int|
                    "  m"@ + text::pad_right(text::decimal((i + 1) as nat), 3) + " "@ + ms[i].source
                        + "  ("@ + ms[i].at + ")"@,
            ),
        ) + "\n"@,
{
    assert(Seq::new(ms.len(), |i: int| file_line(i as nat, ms[i])) =~= Seq::new(
        ms.len(),
        |i: int|
            "  m"@ + text::pad_right(text::decimal((i + 1) as nat), 3) + " "@ + ms[i].source
                + "  ("@ + ms[i].at + ")"@,
    ));
}

/// A row of the overview has the name and five counts, each in a column of its
/// own width.
pub proof fn lemma_overview_row(
    w: int,
    name: Seq<char>,
    rows: Seq<char>,
    added: Seq<char>,
    removed: Seq<char>,
    accounts: Seq<char>,
    cells: Seq<char>,
)
    ensures
        overview_row(w, name, rows, added, removed, accounts, cells) == "  "@ + text::pad_right(
            name,
            w,
        ) + "  "@ + text::pad_left(rows, 5) + "  "@ + text::pad_left(added, 4) + "  "@
            + text::pad_left(removed, 7) + "  "@ + text::pad_left(accounts, 8) + "  "@
            + text::pad_left(cells, 8),
{
}

/// The overview shows for every month its own file and accounts, and what the
/// step to it changed; in the first month all accounts are new and nothing is
/// compared.
pub proof fn lemma_overview(ms: Seq<Month>, diffs: Seq<DiffFacts>, w: int, i: int)
    requires
        0 <= i < ms.len(),
        w == text::widest(month_names(ms), 4),
    ensures
        month_names(ms).len() == ms.len() && month_names(ms)[i] == ms[i].source,
        per_file_text(ms, diffs) == "per-file overview (vs previous month):\n"@ + overview_row(
            w,
            "file"@,
            "rows"@,
            "new"@,
            "removed"@,
            "chg-acct"@,
            "chg-cell"@,
        ) + "\n"@ + text::lines(Seq::new(ms.len(), |k: int| month_row(w, ms, diffs, k))) + "\n"@,
        month_row(w, ms, diffs, i) == {
            let count = text::decimal(ms[i].values.dom().len());
            if i == 0 {
                overview_row(w, ms[i].source, count, count, "-"@, "-"@, "-"@)
            } else {
                overview_row(
                    w,
                    ms[i].source,
                    count,
                    text::decimal(diffs[i - 1].added),
                    text::decimal(diffs[i - 1].removed),
                    text::decimal(diffs[i - 1].changed_accounts),
                    text::decimal(diffs[i - 1].changed_cells),
                )
            }
        },
{
}

/// The overview of no months has its title only.
pub proof fn lemma_empty_overview(diffs: Seq<DiffFacts>)
    ensures
        per_file_text(seq![], diffs) == "per-file overview (vs previous month):\n"@ + overview_row(
            4,
            "file"@,
            "rows"@,
            "new"@,
            "removed"@,
            "chg-acct"@,
            "chg-cell"@,
        ) + "\n"@ + Seq::<char>::empty() + "\n"@,
{
    assert(Seq::new(
        0,
        |i: int| month_row(4, Seq::<Month>::empty(), diffs, i),
    ) =~= Seq::<Seq<char>>::empty());
}

/// The parts of a column's constraint line, in this order, each where it
/// applies.
pub proof fn lemma_detail_parts(col: ColumnFacts, is_key: bool)
    ensures
        detail_parts(col, is_key) == {
            let p = col.profile;
            let n = if p.distinct_overflow {
                ">"@ + text::decimal(p.enum_cap)
            } else {
                text::decimal(p.distinct)
            };
            let count = if is_key {
                "distinct "@ + n
            } else {
                "distinct "@ + n + " -> "@ + (match profile::cardinality_of(
                    p.distinct,
                    p.distinct_overflow,
                ) {
                    Cardinality::Enum => "enum candidate (<5)"@,
                    Cardinality::Borderline => "borderline (5-10)"@,
                    Cardinality::Table => "lookup table candidate (>10)"@,
                })
            };
            let numbers = match p.num_range {
                Some((lo, hi)) => seq![
                    if lo == hi {
                        "value "@ + lo
                    } else {
                        "range "@ + lo + " .. "@ + hi
                    },
                ],
                None => seq![],
            };
            let scale = match p.num_scale {
                Some((precision, scale)) => seq![
                    "fits numeric("@ + text::decimal(precision) + ","@ + text::decimal(scale)
                        + ")"@,
                ],
                None => seq![],
            };
            let dates = match p.temporal_range {
                Some((lo, hi)) => seq![
                    if lo == hi {
                        "date "@ + lo
                    } else {
                        "range "@ + lo + " .. "@ + hi
                    },
                ],
                None => seq![],
            };
            let length = match p.len_range {
                Some((lo, hi)) => seq![
                    if lo == hi {
                        "length "@ + text::decimal(lo)
                    } else {
                        "length "@ + text::decimal(lo) + "-"@ + text::decimal(hi)
                    },
                ],
                None => seq![],
            };
            let class = match profile::label_of(p.classes) {
                Some(label) => seq![label],
                None => seq![],
            };
            let nulls = if !is_key && p.null_count > 0 {
                seq![
                    text::decimal(p.null_count) + "/"@ + text::decimal(p.non_null + p.null_count)
                        + " null"@,
                ]
            } else {
                seq![]
            };
            seq![count] + numbers + scale + dates + (if col.ty == ColType::Text {
                length + class
            } else {
                seq![]
            }) + nulls
        },
{
}

/// A column is shown on two lines: its identifier, type and whether it may be
/// missing, and below them what its values suggest.
pub proof fn lemma_column_text(col: ColumnFacts, w: int, is_key: bool)
    ensures
        column_text(col, w, is_key) == "  "@ + text::pad_right(col.ident, w) + "  "@
            + text::pad_right(scalar::sql_name(col.ty), 12) + " "@ + (if is_key {
            "key"@
        } else if col.nullable {
            "nullable"@
        } else {
            "not null"@
        }) + "\n  "@ + text::pad_right(""@, w) + "    "@ + text::joined(
            detail_parts(col, is_key),
            "  ·  "@,
        ) + "\n"@,
{
}

/// The columns are shown key first and then in the order of the schema, as
/// wide as the widest identifier.
pub proof fn lemma_columns_text(schema: SchemaFacts, attrs: Seq<ColumnFacts>, c: ColumnFacts, w: int)
    ensures
        columns_text(schema) == {
            let wide = text::widest(
                Seq::new(schema.attrs.len(), |a: int| schema.attrs[a].ident).push(
                    schema.key.ident,
                ),
                9,
            );
            "columns & inferred constraints ("@ + text::decimal(schema.attrs.len())
                + " attributes + key):\n"@ + column_text(schema.key, wide, true) + attrs_text(
                schema.attrs,
                wide,
            ) + "\n"@
        },
        attrs_text(seq![], w) == Seq::<char>::empty(),
        attrs_text(attrs.push(c), w) == attrs_text(attrs, w) + column_text(c, w, false),
{
    assert(attrs.push(c).drop_last() =~= attrs);
    assert(idents(schema.attrs) =~= Seq::new(
        schema.attrs.len(),
        |a: int| schema.attrs[a].ident,
    ));
}

/// A table row has its cells from left to right, each filled up to seven
/// characters.
pub proof fn lemma_table_row(w: int, name: Seq<char>, cells: Seq<Seq<char>>, x: Seq<char>)
    ensures
        table_row(w, name, seq![]) == "  "@ + text::pad_right(name, w),
        table_row(w, name, cells.push(x)) == table_row(w, name, cells) + "  "@ + text::pad_left(
            x,
            7,
        ),
{
    assert(cells.push(x).drop_last() =~= cells);
    assert("  "@ + text::pad_right(name, w) + Seq::<char>::empty() =~= "  "@ + text::pad_right(
        name,
        w,
    ));
    assert(table_row(w, name, cells.push(x)) =~= table_row(w, name, cells) + "  "@ + text::pad_left(
        x,
        7,
    ));
}

/// An attribute changes in the report if some step lists a change of it.
pub proof fn lemma_ever_changes(diffs: Seq<DiffFacts>, a: int, n: nat)
    ensures
        ever_changes(diffs, a) <==> exists|t: int|
            0 <= t < diffs.len() && (#[trigger] diffs[t]).changes[a].len() > 0,
        anything_changes(diffs, n) <==> exists|b: int| 0 <= b < n && #[trigger] ever_changes(diffs, b),
{
}

/// The table of changes has a column for each step and a row for each
/// attribute that changes, with the number of changes that each step lists for
/// it; there is no table without steps.
pub proof fn lemma_change_table(attrs: Seq<ColumnFacts>, diffs: Seq<DiffFacts>, w: int, a: nat)
    requires
        a < attrs.len(),
    ensures
        diffs.len() == 0 ==> attr_changes_text(attrs, diffs) == Seq::<char>::empty(),
        change_rows(attrs, diffs, w, 0) == Seq::<Seq<char>>::empty(),
        ever_changes(diffs, a as int) ==> change_rows(attrs, diffs, w, a + 1) == change_rows(
            attrs,
            diffs,
            w,
            a,
        ).push(
            table_row(
                w,
                attrs[a as int].ident,
                Seq::new(diffs.len(), |t: int| text::decimal(diffs[t].changes[a as int].len())),
            ),
        ),
        !ever_changes(diffs, a as int) ==> change_rows(attrs, diffs, w, a + 1) == change_rows(
            attrs,
            diffs,
            w,
            a,
        ),
{
    let counts = change_counts(diffs, a as int);
    assert(Seq::new(counts.len(), |t: int| text::decimal(counts[t])) =~= Seq::new(
        diffs.len(),
        |t: int| text::decimal(diffs[t].changes[a as int].len()),
    ));
}

/// Where there are steps, the table of changes stands below its title.
pub proof fn lemma_change_table_text(attrs: Seq<ColumnFacts>, diffs: Seq<DiffFacts>)
    requires
        diffs.len() > 0,
    ensures
        attr_changes_text(attrs, diffs) == {
            let w = text::widest(Seq::new(attrs.len(), |a: int| attrs[a].ident), 9);
            "attribute changes (accounts changed, per transition):\n"@ + table_row(
                w,
                "attribute"@,
                Seq::new(diffs.len(), |t: int| step_label(t as nat)),
            ) + "\n"@ + text::lines(change_rows(attrs, diffs, w, attrs.len())) + "\n"@
        },
{
    assert(idents(attrs) =~= Seq::new(attrs.len(), |a: int| attrs[a].ident));
}

/// A long list is cut after the first items, and says how many more there
/// are.
pub proof fn lemma_capped(items: Seq<Seq<char>>, max: int)
    requires
        0 <= max,
    ensures
        items.len() <= max ==> capped(items, max) == text::joined(items, ", "@),
        items.len() > max ==> capped(items, max) == text::joined(items.take(max), ", "@)
            + ", … and "@ + text::decimal((items.len() - max) as nat) + " more"@,
        items.len() == 0 ==> summary(items) == "none"@,
        items.len() > 0 ==> summary(items) == capped(items, 12),
{
}

/// The changes of an attribute in a step are listed as key, old and new cell,
/// up to ten of them.
pub proof fn lemma_step_line(t: nat, changes: Seq<ChangeFacts>)
    ensures
        step_line(t, changes) == "    "@ + step_label(t) + ":  "@ + capped(
            Seq::new(
                changes.len(),
                |i: int|
                    changes[i].key + ": "@ + changes[i].old_cell + " -> "@ + changes[i].new_cell,
            ),
            10,
        ),
{
    assert(Seq::new(changes.len(), |i: int| change_text(changes[i])) =~= Seq::new(
        changes.len(),
        |i: int| changes[i].key + ": "@ + changes[i].old_cell + " -> "@ + changes[i].new_cell,
    ));
}

/// The transitions list, attribute by attribute, each step that changes it
/// with the changes of that step; attributes and steps without changes are
/// left out.
pub proof fn lemma_transitions(attrs: Seq<ColumnFacts>, diffs: Seq<DiffFacts>, a: nat, t: nat)
    requires
        a < attrs.len(),
        t < diffs.len(),
    ensures
        step_lines(diffs, a as int, 0) == Seq::<Seq<char>>::empty(),
        step_lines(diffs, a as int, t + 1) == if diffs[t as int].changes[a as int].len() > 0 {
            step_lines(diffs, a as int, t).push(step_line(t, diffs[t as int].changes[a as int]))
        } else {
            step_lines(diffs, a as int, t)
        },
        transition_lines(attrs, diffs, 0) == Seq::<char>::empty(),
        transition_lines(attrs, diffs, a + 1) == if ever_changes(diffs, a as int) {
            transition_lines(attrs, diffs, a) + "  "@ + attrs[a as int].ident + ":\n"@ + text::lines(
                step_lines(diffs, a as int, diffs.len()),
            )
        } else {
            transition_lines(attrs, diffs, a)
        },
{
}

/// The transitions of all attributes stand below their title, where there are
/// any.
pub proof fn lemma_transitions_text(attrs: Seq<ColumnFacts>, diffs: Seq<DiffFacts>)
    ensures
        !anything_changes(diffs, attrs.len()) ==> transitions_text(attrs, diffs) == Seq::<
            char,
        >::empty(),
        anything_changes(diffs, attrs.len()) ==> transitions_text(attrs, diffs)
            == "value transitions (up to "@ + text::decimal(10)
            + " per attribute per month):\n"@ + transition_lines(attrs, diffs, attrs.len())
            + "\n"@,
{
}

/// A value is in a month's attribute if some account of the month has it
/// there.
pub proof fn lemma_values_in(accounts: Accounts, a: int, v: Seq<char>)
    ensures
        values_in(accounts, a).contains(v) <==> exists|k: Seq<char>| #[trigger]
            accounts.contains_key(k) && accounts[k][a] == Some(v),
{
}

/// The values that a month adds to the list are those that no month before it
/// has, in lexical order and with the label of that month.
pub proof fn lemma_appearances_step(
    ms: Seq<Month>,
    a: int,
    i: nat,
    fresh: Set<Seq<char>>,
)
    requires
        i < ms.len(),
        forall|v: Seq<char>| #[trigger]
            fresh.contains(v) <==> values_in(ms[i as int].values, a).contains(v) && forall|j: int|
                0 <= j < i ==> !values_in((#[trigger] ms[j]).values, a).contains(v),
    ensures
        appearances(ms, a, 0) == Seq::<Seq<char>>::empty(),
        appearances(ms, a, i + 1) == appearances(ms, a, i) + Seq::new(
            order::ordered(fresh).len(),
            |j: int| order::ordered(fresh)[j] + " ("@ + label(i) + ")"@,
        ),
{
    let set = values_in(ms[i as int].values, a).difference(values_before(ms, a, i));
    assert forall|v: Seq<char>| set.contains(v) == fresh.contains(v) by {
        lemma_values_before(ms, a, i, v);
    }
    assert(set =~= fresh);
    assert(Seq::new(
        order::ordered(fresh).len(),
        |j: int| dated(order::ordered(fresh)[j], i),
    ) =~= Seq::new(
        order::ordered(fresh).len(),
        |j: int| order::ordered(fresh)[j] + " ("@ + label(i) + ")"@,
    ));
}

/// Every enum-like attribute has a line with its values, and no other has one.
pub proof fn lemma_enum_lines(attrs: Seq<ColumnFacts>, ms: Seq<Month>, a: nat)
    requires
        a < attrs.len(),
    ensures
        enum_lines(attrs, ms, 0) == Seq::<Seq<char>>::empty(),
        enum_lines(attrs, ms, a + 1) == if attrs[a as int].enum_values is Some {
            enum_lines(attrs, ms, a).push(
                "  "@ + attrs[a as int].ident + ": "@ + text::joined(
                    appearances(ms, a as int, ms.len()),
                    ", "@,
                ),
            )
        } else {
            enum_lines(attrs, ms, a)
        },
{
}

/// The lines of the enum-like attributes stand below their title, where there
/// are any.
pub proof fn lemma_enums_text(attrs: Seq<ColumnFacts>, ms: Seq<Month>)
    ensures
        enum_lines(attrs, ms, attrs.len()).len() == 0 ==> enums_text(attrs, ms) == Seq::<
            char,
        >::empty(),
        enum_lines(attrs, ms, attrs.len()).len() > 0 ==> enums_text(attrs, ms)
            == "distinct values & first appearance (mN = month a value first showed up):\n"@
            + text::lines(enum_lines(attrs, ms, attrs.len())) + "\n"@,
{
}

/// An account's first and last months are the first and the last that have
/// it, and it is among all accounts exactly if some month has it.
pub proof fn lemma_account_months(ms: Seq<Month>, k: Seq<char>, i: int)
    requires
        0 <= i < ms.len(),
        ms[i].values.contains_key(k),
    ensures
        all_accounts(ms).contains(k),
        (forall|j: int| 0 <= j < i ==> !(#[trigger] ms[j]).values.contains_key(k)) ==> first_month(
            ms,
            k,
        ) == Some(i),
        (forall|j: int| i < j < ms.len() ==> !(#[trigger] ms[j]).values.contains_key(k))
            ==> last_month(ms, k) == Some(i),
{
    lemma_first_month(ms, k, i);
    lemma_seen(ms, k);
    lemma_last_holds(ms, k, i);
}

proof fn lemma_last_holds(ms: Seq<Month>, k: Seq<char>, i: int)
    requires
        0 <= i < ms.len(),
        ms[i].values.contains_key(k),
    ensures
        last_month(ms, k) matches Some(l) && i <= l < ms.len() && ms[l].values.contains_key(k),
    decreases ms.len(),
{
    if !ms.last().values.contains_key(k) {
        let p = ms.drop_last();
        assert(p[i] == ms[i]);
        lemma_last_holds(p, k, i);
        assert(p[last_month(p, k)->0] == ms[last_month(p, k)->0]);
    }
}

/// An account that no month has is not among the accounts.
pub proof fn lemma_no_other_accounts(ms: Seq<Month>, k: Seq<char>)
    requires
        forall|j: int| 0 <= j < ms.len() ==> !(#[trigger] ms[j]).values.contains_key(k),
    ensures
        !all_accounts(ms).contains(k),
{
    lemma_seen(ms, k);
    lemma_first_holds(ms, k);
}

/// The lifecycle counts all accounts and those of every month, and lists in
/// key order those that came after the first month, with the month, and those
/// that were gone before the last, with the last month that has them.
pub proof fn lemma_lifecycle_text(
    ms: Seq<Month>,
    every: Set<Seq<char>>,
    later: Set<Seq<char>>,
    early: Set<Seq<char>>,
)
    requires
        forall|k: Seq<char>| #[trigger]
            every.contains(k) <==> all_accounts(ms).contains(k) && forall|i: int|
                0 <= i < ms.len() ==> (#[trigger] ms[i]).values.contains_key(k),
        forall|k: Seq<char>| #[trigger]
            later.contains(k) <==> all_accounts(ms).contains(k) && first_month(ms, k)->0 > 0,
        forall|k: Seq<char>| #[trigger]
            early.contains(k) <==> all_accounts(ms).contains(k) && last_month(ms, k)->0 + 1
                < ms.len(),
    ensures
        lifecycle_text(ms) == "account lifecycle:\n  distinct accounts: "@ + text::decimal(
            all_accounts(ms).len(),
        ) + "\n  present in every month: "@ + text::decimal(every.len())
            + "\n  added after first month: "@ + summary(
            Seq::new(
                order::ordered(later).len(),
                |j: int|
                    order::ordered(later)[j] + " ("@ + label(
                        (first_month(ms, order::ordered(later)[j])->0) as nat,
                    ) + ")"@,
            ),
        ) + "\n  gone before last month:  "@ + summary(
            Seq::new(
                order::ordered(early).len(),
                |j: int|
                    order::ordered(early)[j] + " (last "@ + label(
                        (last_month(ms, order::ordered(early)[j])->0) as nat,
                    ) + ")"@,
            ),
        ) + "\n"@,
{
    let all = all_accounts(ms);
    assert forall|k: Seq<char>| all.filter(in_every(ms)).contains(k) == every.contains(k) by {}
    assert(all.filter(in_every(ms)) =~= every);
    assert(all.filter(came_later(ms)) =~= later);
    assert(all.filter(went_early(ms)) =~= early);
    assert(added_later(ms) =~= Seq::new(
        order::ordered(later).len(),
        |j: int|
            order::ordered(later)[j] + " ("@ + label(
                (first_month(ms, order::ordered(later)[j])->0) as nat,
            ) + ")"@,
    ));
    assert(gone_early(ms) =~= Seq::new(
        order::ordered(early).len(),
        |j: int|
            order::ordered(early)[j] + " (last "@ + label(
                (last_month(ms, order::ordered(early)[j])->0) as nat,
            ) + ")"@,
    ));
}

/// An attribute changes over time exactly if an account has different cells of
/// it in two months.
pub proof fn lemma_varies(ms: Seq<Month>, a: int)
    ensures
        varies(ms, a) <==> exists|i: int, j: int, k: Seq<char>|
            {
                &&& 0 <= i < j < ms.len()
                &&& #[trigger] ms[i].values.contains_key(k)
                &&& #[trigger] ms[j].values.contains_key(k)
                &&& ms[i].values[k][a] != ms[j].values[k][a]
            },
{
    if varies(ms, a) {
        let (i, j, k) = choose|i: int, j: int, k: Seq<char>|
            0 <= i < j < ms.len() && #[trigger] months::changed_keys(
                ms[i].values,
                ms[j].values,
                a,
            ).contains(k);
        assert(ms[i].values.contains_key(k) && ms[j].values.contains_key(k));
    }
    if exists|i: int, j: int, k: Seq<char>|
        {
            &&& 0 <= i < j < ms.len()
            &&& #[trigger] ms[i].values.contains_key(k)
            &&& #[trigger] ms[j].values.contains_key(k)
            &&& ms[i].values[k][a] != ms[j].values[k][a]
        } {
        let (i, j, k) = choose|i: int, j: int, k: Seq<char>|
            {
                &&& 0 <= i < j < ms.len()
                &&& #[trigger] ms[i].values.contains_key(k)
                &&& #[trigger] ms[j].values.contains_key(k)
                &&& ms[i].values[k][a] != ms[j].values[k][a]
            };
        assert(months::changed_keys(ms[i].values, ms[j].values, a).contains(k));
    }
}

} // verus!
