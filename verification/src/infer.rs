//! Column-type and enum inference.
//!
//! We scan every CSV in the manifest once, accumulating per-column facts:
//! which scalar types every non-null value still satisfies, how many nulls
//! were seen, the set of distinct values (capped, so a high-cardinality
//! column can't blow up memory), and a value [`Profile`] - numeric/temporal
//! range, the digits needed for a `numeric(p, s)`, text length, and character
//! class. From those facts we pick the most specific Postgres type that fits,
//! flag low-cardinality columns as enum-like, and let the report turn the
//! profile into constraint suggestions. Because we scan *all* listed months,
//! a rare value that only appears in a later month is still captured.

use crate::error::{Error, Fault, Result};
use crate::ident;
use crate::manifest::Entry;
use crate::order;
use crate::order::TextSet;
use crate::profile;
use crate::profile::Facts;
use crate::scalar;
use crate::table;
use crate::table::{Flaw, Grid, RowFault, Table};
use crate::text;
use crate::util;
use vstd::prelude::*;

pub use crate::profile::{Accumulator, Cardinality, CharClasses, Profile};
pub use crate::scalar::ColType;

verus! {

/// One resolved column: its original CSV header, the sanitized SQL
/// identifier, the inferred type, whether it ever held a null, the observed
/// value set when it looks enum-like, and the value profile used to suggest
/// constraints.
pub struct Column {
    pub header: String,
    pub ident: String,
    pub ty: ColType,
    pub nullable: bool,
    pub enum_values: Option<Vec<String>>,
    pub profile: Profile,
}

/// What a [`Column`] says.
#[verifier::ext_equal]
pub struct ColumnFacts {
    pub header: Seq<char>,
    pub ident: Seq<char>,
    pub ty: ColType,
    pub nullable: bool,
    pub enum_values: Option<Seq<Seq<char>>>,
    pub profile: Facts,
}

pub open spec fn texts_opt(v: Option<Vec<String>>) -> Option<Seq<Seq<char>>> {
    match v {
        Some(items) => Some(text::texts(items@)),
        None => None,
    }
}

impl View for Column {
    type V = ColumnFacts;

    open spec fn view(&self) -> ColumnFacts {
        ColumnFacts {
            header: self.header@,
            ident: self.ident@,
            ty: self.ty,
            nullable: self.nullable,
            enum_values: texts_opt(self.enum_values),
            profile: self.profile@,
        }
    }
}

/// The whole inferred schema: a Postgres schema name, the account natural
/// key, and one attribute per remaining column. `sources` is kept only to
/// annotate the generated DDL.
pub struct Schema {
    pub name: String,
    pub key: Column,
    pub attrs: Vec<Column>,
    pub sources: Vec<String>,
}

/// What a [`Schema`] says.
#[verifier::ext_equal]
pub struct SchemaFacts {
    pub name: Seq<char>,
    pub key: ColumnFacts,
    pub attrs: Seq<ColumnFacts>,
    pub sources: Seq<Seq<char>>,
}

pub open spec fn columns_view(v: Seq<Column>) -> Seq<ColumnFacts> {
    Seq::new(v.len(), |i: int| v[i]@)
}

impl View for Schema {
    type V = SchemaFacts;

    open spec fn view(&self) -> SchemaFacts {
        SchemaFacts {
            name: self.name@,
            key: self.key@,
            attrs: columns_view(self.attrs@),
            sources: text::texts(self.sources@),
        }
    }
}

/// Inference knobs from the command line.
pub struct Options {
    pub schema: String,
    pub key: Option<String>,
    pub enum_max: usize,
    pub null_tokens: Vec<String>,
    /// When set (the default), inputs are validated instead of tolerated:
    /// ragged rows, blank account keys, and month-to-month header drift all
    /// abort the run with file context.
    pub strict: bool,
}

impl Options {
    /// The cells that count as missing besides empty ones.
    pub open spec fn nulls(&self) -> Seq<Seq<char>> {
        text::texts(self.null_tokens@)
    }
}

/// Where a header stands in a header row.
pub open spec fn positions(headers: Seq<Seq<char>>, h: Seq<char>) -> Seq<int>
    decreases headers.len(),
{
    if headers.len() == 0 {
        seq![]
    } else if headers.last() == h {
        positions(headers.drop_last(), h).push(headers.len() - 1)
    } else {
        positions(headers.drop_last(), h)
    }
}

/// What a row holds in a column: the cells under its header, or a missing one
/// where the file has no such column.
pub open spec fn row_cells(
    headers: Seq<Seq<char>>,
    row: Seq<Seq<char>>,
    h: Seq<char>,
    null_tokens: Seq<Seq<char>>,
) -> Seq<Option<Seq<char>>> {
    let at = positions(headers, h);
    if at.len() == 0 {
        seq![None]
    } else {
        Seq::new(at.len(), |k: int| util::cell(table::cell_at(row, at[k]), null_tokens))
    }
}

/// What some rows hold in a column.
pub open spec fn rows_cells(
    headers: Seq<Seq<char>>,
    rows: Seq<Seq<Seq<char>>>,
    h: Seq<char>,
    null_tokens: Seq<Seq<char>>,
) -> Seq<Option<Seq<char>>>
    decreases rows.len(),
{
    if rows.len() == 0 {
        seq![]
    } else {
        rows_cells(headers, rows.drop_last(), h, null_tokens) + row_cells(
            headers,
            rows.last(),
            h,
            null_tokens,
        )
    }
}

/// What the files hold in a column, month after month.
pub open spec fn observed(
    grids: Seq<Grid>,
    h: Seq<char>,
    null_tokens: Seq<Seq<char>>,
) -> Seq<Option<Seq<char>>>
    decreases grids.len(),
{
    if grids.len() == 0 {
        seq![]
    } else {
        observed(grids.drop_last(), h, null_tokens) + rows_cells(
            grids.last().headers,
            grids.last().rows,
            h,
            null_tokens,
        )
    }
}

/// The headers in the order in which they are first seen.
pub open spec fn first_seen(order: Seq<Seq<char>>, headers: Seq<Seq<char>>) -> Seq<Seq<char>>
    decreases headers.len(),
{
    if headers.len() == 0 {
        order
    } else {
        let front = first_seen(order, headers.drop_last());
        if front.contains(headers.last()) {
            front
        } else {
            front.push(headers.last())
        }
    }
}

/// The columns of all files, in the order in which they are first seen.
pub open spec fn column_order(grids: Seq<Grid>) -> Seq<Seq<char>>
    decreases grids.len(),
{
    if grids.len() == 0 {
        seq![]
    } else {
        first_seen(column_order(grids.drop_last()), grids.last().headers)
    }
}

/// How many rows the files have.
pub open spec fn total_rows(grids: Seq<Grid>) -> nat
    decreases grids.len(),
{
    if grids.len() == 0 {
        0
    } else {
        total_rows(grids.drop_last()) + grids.last().rows.len()
    }
}

/// How many cells a file adds to a column: those under its header, or a
/// missing one in each row where the file has no such column.
pub open spec fn column_cells(g: Grid, h: Seq<char>) -> nat {
    g.rows.len() * profile::larger(1, positions(g.headers, h).len())
}

/// How many cells the files give a column.
pub open spec fn total_cells(grids: Seq<Grid>, h: Seq<char>) -> nat
    decreases grids.len(),
{
    if grids.len() == 0 {
        0
    } else {
        total_cells(grids.drop_last(), h) + column_cells(grids.last(), h)
    }
}

/// Whether every cell of a file is short enough for its digits to be counted.
pub open spec fn short_cells(g: Grid) -> bool {
    forall|r: int, i: int|
        0 <= r < g.rows.len() && 0 <= i < g.rows[r].len() ==> (#[trigger] g.rows[r][i]).len()
            <= profile::longest_cell()
}

/// Whether the cells of a column can be counted with one more file.
pub open spec fn column_countable(grids: Seq<Grid>, g: Grid, h: Seq<char>) -> bool {
    total_cells(grids, h) + column_cells(g, h) <= usize::MAX
}

/// Whether the rows of one more file, and the cells of each column, can be
/// counted.
pub open spec fn counts_fit(grids: Seq<Grid>, g: Grid) -> bool {
    &&& total_rows(grids) + g.rows.len() <= usize::MAX
    &&& forall|h: Seq<char>|
        column_order(grids).contains(h) || g.headers.contains(h) ==> #[trigger] column_countable(
            grids,
            g,
            h,
        )
}

/// Whether one more file can be taken into account.
pub open spec fn countable(grids: Seq<Grid>, g: Grid) -> bool {
    counts_fit(grids, g) && short_cells(g)
}

/// The list of headers that one set has and another lacks, with a caption.
pub open spec fn drift_part(caption: Seq<char>, names: Set<Seq<char>>) -> Seq<Seq<char>> {
    if names.len() == 0 {
        seq![]
    } else {
        seq![caption + text::joined(order::ordered(names), ", "@)]
    }
}

/// What is wrong with a header row that differs, as a set, from the first
/// file's.
pub open spec fn header_fault(
    source: Seq<char>,
    first: Seq<Seq<char>>,
    headers: Seq<Seq<char>>,
) -> Option<Fault> {
    let want = first.to_set();
    let got = headers.to_set();
    if want == got {
        None
    } else {
        let parts = drift_part("missing column(s): "@, want.difference(got)) + drift_part(
            "unexpected column(s): "@,
            got.difference(want),
        );
        Some(
            Fault::Data {
                source,
                message: "headers differ from the first file ("@ + text::joined(parts, "; "@)
                    + ")"@,
            },
        )
    }
}

/// Add the list of some headers, with a caption, where there are any.
fn push_drift(parts: &mut Vec<String>, caption: &str, names: &Vec<String>, Ghost(set): Ghost<
    Set<Seq<char>>,
>)
    requires
        set.finite(),
        text::texts(names@) == order::ordered(set),
    ensures
        text::texts(final(parts)@) == text::texts(old(parts)@) + drift_part(caption@, set),
{
    proof {
        order::lemma_ordered_exists(set);
    }
    if names.len() > 0 {
        let mut line = caption.to_owned();
        line.append(text::join(names.as_slice(), ", ").as_str());
        parts.push(line);
    }
    assert(text::texts(parts@) =~= text::texts(old(parts)@) + drift_part(caption@, set));
}

/// Strict-mode header check: the columns of `headers` must match `first` as a
/// set (order may differ). Reports what was added or dropped.
pub fn check_headers(source: &str, first: &[String], headers: &[String]) -> (out: Result<()>)
    ensures
        match out {
            Ok(_) => header_fault(source@, text::texts(first@), text::texts(headers@)) is None,
            Err(e) => header_fault(source@, text::texts(first@), text::texts(headers@)) == Some(
                e@,
            ),
        },
{
    let want = order::text_set(first);
    let got = order::text_set(headers);
    let missing = want.difference(&got);
    let extra = got.difference(&want);
    proof {
        vstd::seq_lib::seq_to_set_is_finite(text::texts(first@));
        vstd::seq_lib::seq_to_set_is_finite(text::texts(headers@));
        order::lemma_ordered_exists(want@.difference(got@));
        order::lemma_ordered_exists(got@.difference(want@));
        if want@.difference(got@).len() == 0 && got@.difference(want@).len() == 0 {
            assert(want@.difference(got@) =~= Set::empty());
            assert(got@.difference(want@) =~= Set::empty());
            assert forall|x: Seq<char>| want@.contains(x) == got@.contains(x) by {
                assert(!want@.difference(got@).contains(x));
                assert(!got@.difference(want@).contains(x));
            }
            assert(want@ =~= got@);
        }
        if want@ == got@ {
            assert(want@.difference(got@) =~= Set::empty());
            assert(got@.difference(want@) =~= Set::empty());
        }
    }
    if missing.len() == 0 && extra.len() == 0 {
        return Ok(());
    }
    let mut parts: Vec<String> = Vec::new();
    push_drift(&mut parts, "missing column(s): ", &missing, Ghost(want@.difference(got@)));
    push_drift(&mut parts, "unexpected column(s): ", &extra, Ghost(got@.difference(want@)));
    proof {
        let a = drift_part("missing column(s): "@, want@.difference(got@));
        assert(Seq::<Seq<char>>::empty() + a =~= a);
        assert(text::texts(Seq::<String>::empty()) =~= Seq::<Seq<char>>::empty());
    }
    let mut message = "headers differ from the first file (".to_owned();
    message.append(text::join(parts.as_slice(), "; ").as_str());
    message.append(")");
    Err(Error::Data { source: source.to_owned(), message })
}

/// What is wrong with a record that could not be read. Rows are numbered as
/// lines are, the header row being the first.
pub open spec fn row_fault(source: Seq<char>, row: nat, flaw: Flaw) -> Fault {
    match flaw {
        Flaw::Ragged { expected, found } => Fault::Data {
            source,
            message: "row "@ + text::decimal(row + 2) + ": found "@ + text::decimal(found as nat)
                + " cell(s), expected "@ + text::decimal(expected as nat),
        },
        Flaw::Csv(message) => Fault::Csv(message),
    }
}

/// The error for a record that could not be read.
pub fn row_error(source: &str, row: usize, fault: &RowFault) -> (out: Error)
    ensures
        out@ == row_fault(source@, row as nat, fault@),
{
    match fault {
        RowFault::Ragged { expected, found } => {
            let mut message = "row ".to_owned();
            message.append(text::decimal_text(row as u128 + 2).as_str());
            message.append(": found ");
            message.append(text::decimal_text(*found as u128).as_str());
            message.append(" cell(s), expected ");
            message.append(text::decimal_text(*expected as u128).as_str());
            Error::Data { source: source.to_owned(), message }
        },
        RowFault::Csv(message) => Error::Csv(message.clone()),
    }
}

proof fn lemma_positions(headers: Seq<Seq<char>>, h: Seq<char>)
    ensures
        positions(headers, h).len() <= headers.len(),
        forall|k: int|
            0 <= k < positions(headers, h).len() ==> 0 <= #[trigger] positions(headers, h)[k]
                < headers.len() && headers[positions(headers, h)[k]] == h,
        positions(headers, h).len() == 0 <==> !headers.contains(h),
    decreases headers.len(),
{
    if headers.len() > 0 {
        let p = headers.drop_last();
        lemma_positions(p, h);
        let at = positions(headers, h);
        let before = positions(p, h);
        assert forall|k: int| 0 <= k < at.len() implies 0 <= #[trigger] at[k] < headers.len()
            && headers[at[k]] == h by {
            if k < before.len() {
                assert(at[k] == before[k]);
                assert(p[before[k]] == h);
            }
        }
        if headers.contains(h) && headers.last() != h {
            let i = choose|i: int| 0 <= i < headers.len() && headers[i] == h;
            assert(p[i] == h);
        }
        if at.len() > 0 {
            assert(headers[at[0]] == h);
        }
    }
}

fn find_positions(headers: &Vec<String>, h: &str) -> (out: Vec<usize>)
    ensures
        out@.len() == positions(text::texts(headers@), h@).len(),
        forall|k: int|
            0 <= k < out@.len() ==> #[trigger] out@[k] == positions(text::texts(headers@), h@)[k],
{
    let mut out: Vec<usize> = Vec::new();
    let ghost all = text::texts(headers@);
    for i in 0..headers.len()
        invariant
            all == text::texts(headers@),
            out@.len() == positions(all.take(i as int), h@).len(),
            forall|k: int|
                0 <= k < out@.len() ==> #[trigger] out@[k] == positions(all.take(i as int), h@)[k],
    {
        assert(all.take(i + 1).drop_last() =~= all.take(i as int));
        assert(all.take(i + 1).last() == headers@[i as int]@);
        if text::same(headers[i].as_str(), h) {
            out.push(i);
        }
    }
    assert(all.take(headers@.len() as int) =~= all);
    out
}

/// The cell at a position; an empty one, where the row is too short.
pub fn cell_text(row: &Vec<String>, at: usize) -> (out: &str)
    ensures
        out@ == table::cell_at(text::texts(row@), at as int),
{
    if at < row.len() {
        row[at].as_str()
    } else {
        proof {
            reveal_strlit("");
            assert(""@ =~= Seq::<char>::empty());
        }
        ""
    }
}

/// Take a file's cells of one column into account.
fn scan_column(acc: &mut Accumulator, t: &Table, h: &str, null_tokens: &[String])
    requires
        old(acc).wf(),
        old(acc).seen@.len() + column_cells(t@, h@) <= usize::MAX,
        short_cells(t@),
    ensures
        final(acc).wf(),
        final(acc).enum_cap == old(acc).enum_cap,
        final(acc).seen@ == old(acc).seen@ + rows_cells(
            t@.headers,
            t@.rows,
            h@,
            text::texts(null_tokens@),
        ),
{
    let at = find_positions(&t.headers, h);
    let cap = acc.enum_cap;
    let ghost was = acc.seen@;
    let ghost nulls = text::texts(null_tokens@);
    let ghost g = t@;
    let ghost wide = profile::larger(1, positions(g.headers, h@).len());
    proof {
        lemma_positions(g.headers, h@);
        assert(was + rows_cells(g.headers, g.rows.take(0), h@, nulls) =~= was);
    }
    for r in 0..t.rows.len()
        invariant
            g == t@,
            acc.wf(),
            acc.enum_cap == cap,
            nulls == text::texts(null_tokens@),
            wide == profile::larger(1, at@.len()),
            at@.len() == positions(g.headers, h@).len(),
            at@.len() <= wide,
            forall|k: int|
                0 <= k < at@.len() ==> #[trigger] at@[k] == positions(g.headers, h@)[k],
            was.len() + g.rows.len() * wide <= usize::MAX,
            short_cells(g),
            acc.seen@ == was + rows_cells(g.headers, g.rows.take(r as int), h@, nulls),
            acc.seen@.len() <= was.len() + r * wide,
    {
        let ghost before = acc.seen@;
        let ghost row = g.rows[r as int];
        let ghost more = row_cells(g.headers, row, h@, nulls);
        proof {
            assert(g.rows.take(r + 1).drop_last() =~= g.rows.take(r as int));
            assert(row == text::texts(t.rows@[r as int]@));
            assert(r * wide + wide <= g.rows.len() * wide) by (nonlinear_arith)
                requires
                    r + 1 <= g.rows.len(),
            ;
            assert((r + 1) * wide == r * wide + wide) by (nonlinear_arith);
        }
        if at.len() == 0 {
            proof {
                reveal_strlit("");
            }
            acc.observe("", true, cap);
            assert(acc.seen@ =~= before + more);
        } else {
            for k in 0..at.len()
                invariant
                    g == t@,
                    r < t.rows@.len(),
                    row == g.rows[r as int],
                    row == text::texts(t.rows@[r as int]@),
                    acc.wf(),
                    acc.enum_cap == cap,
                    nulls == text::texts(null_tokens@),
                    at@.len() == positions(g.headers, h@).len(),
                    at@.len() > 0,
                    at@.len() <= wide,
                    forall|j: int|
                        0 <= j < at@.len() ==> #[trigger] at@[j] == positions(g.headers, h@)[j],
                    more == row_cells(g.headers, row, h@, nulls),
                    acc.seen@ == before + more.take(k as int),
                    before.len() + wide <= usize::MAX,
                    short_cells(g),
            {
                let raw = cell_text(&t.rows[r], at[k]);
                assert(raw@.len() <= profile::longest_cell()) by {
                    if at@[k as int] < row.len() {
                        assert(g.rows[r as int][at@[k as int] as int].len()
                            <= profile::longest_cell());
                    }
                }
                let null = util::is_null(raw, null_tokens);
                acc.observe(raw, null, cap);
                assert(more[k as int] == util::cell(
                    table::cell_at(row, positions(g.headers, h@)[k as int]),
                    nulls,
                ));
                assert(before + more.take(k + 1) =~= (before + more.take(k as int)).push(
                    more[k as int],
                ));
            }
            assert(more.take(at@.len() as int) =~= more);
        }
        assert(acc.seen@ =~= was + rows_cells(g.headers, g.rows.take(r + 1), h@, nulls));
    }
    assert(g.rows.take(g.rows.len() as int) =~= g.rows);
}

/// The scan of the files, one after the other.
pub struct Scan<'a> {
    pub opts: &'a Options,
    /// The headers, in first-seen order.
    pub order: Vec<String>,
    /// What was observed in each column.
    pub accs: Vec<Accumulator>,
    pub first_headers: Option<Vec<String>>,
    pub rows: usize,
    pub sources: Vec<String>,
    /// The files scanned so far.
    pub grids: Ghost<Seq<Grid>>,
}

/// What stops the scan at a file, if anything does.
pub open spec fn file_fault(
    grids: Seq<Grid>,
    source: Seq<char>,
    g: Grid,
    strict: bool,
) -> Option<Fault> {
    let drift = if strict && grids.len() > 0 {
        header_fault(source, grids[0].headers, g.headers)
    } else {
        None
    };
    if drift is Some {
        drift
    } else if g.fault is Some {
        Some(row_fault(source, g.rows.len(), g.fault->0))
    } else if !countable(grids, g) {
        Some(Fault::TooLarge { source })
    } else {
        None
    }
}

proof fn lemma_rows_cells_len(
    headers: Seq<Seq<char>>,
    rows: Seq<Seq<Seq<char>>>,
    h: Seq<char>,
    null_tokens: Seq<Seq<char>>,
)
    ensures
        rows_cells(headers, rows, h, null_tokens).len() == rows.len() * profile::larger(
            1,
            positions(headers, h).len(),
        ),
    decreases rows.len(),
{
    let wide = profile::larger(1, positions(headers, h).len());
    if rows.len() > 0 {
        lemma_rows_cells_len(headers, rows.drop_last(), h, null_tokens);
        assert((rows.len() - 1) * wide + wide == rows.len() * wide) by (nonlinear_arith);
    } else {
        assert(0 * wide == 0);
    }
}

proof fn lemma_observed_len(grids: Seq<Grid>, h: Seq<char>, null_tokens: Seq<Seq<char>>)
    ensures
        observed(grids, h, null_tokens).len() == total_cells(grids, h),
    decreases grids.len(),
{
    if grids.len() > 0 {
        lemma_observed_len(grids.drop_last(), h, null_tokens);
        lemma_rows_cells_len(grids.last().headers, grids.last().rows, h, null_tokens);
    }
}

proof fn lemma_first_seen(order: Seq<Seq<char>>, headers: Seq<Seq<char>>)
    ensures
        order.no_duplicates() ==> first_seen(order, headers).no_duplicates(),
        forall|x: Seq<char>|
            #[trigger] first_seen(order, headers).contains(x) <==> order.contains(x)
                || headers.contains(x),
        first_seen(order, headers).len() >= order.len(),
        first_seen(order, headers).take(order.len() as int) == order,
    decreases headers.len(),
{
    if headers.len() > 0 {
        let p = headers.drop_last();
        lemma_first_seen(order, p);
        let front = first_seen(order, p);
        let all = first_seen(order, headers);
        assert(headers =~= p.push(headers.last()));
        assert forall|x: Seq<char>| #[trigger] all.contains(x) <==> order.contains(x)
            || headers.contains(x) by {
            order::lemma_push_set(p, headers.last());
            order::lemma_push_set(front, headers.last());
            assert(headers.to_set().contains(x) == p.to_set().insert(headers.last()).contains(x));
            assert(front.push(headers.last()).to_set().contains(x) == front.to_set().insert(
                headers.last(),
            ).contains(x));
            assert(front.contains(x) <==> order.contains(x) || p.contains(x));
        }
        assert(all.take(order.len() as int) =~= front.take(order.len() as int));
    } else {
        assert(order.take(order.len() as int) =~= order);
    }
}

/// A column that no file has holds a missing cell for every row.
proof fn lemma_observed_absent(grids: Seq<Grid>, h: Seq<char>, null_tokens: Seq<Seq<char>>)
    requires
        !column_order(grids).contains(h),
    ensures
        observed(grids, h, null_tokens) == profile::nulls(total_rows(grids)),
    decreases grids.len(),
{
    if grids.len() > 0 {
        let g = grids.last();
        lemma_first_seen(column_order(grids.drop_last()), g.headers);
        lemma_observed_absent(grids.drop_last(), h, null_tokens);
        lemma_rows_absent(g.headers, g.rows, h, null_tokens);
    }
    assert(observed(grids, h, null_tokens) =~= profile::nulls(total_rows(grids)));
}

proof fn lemma_rows_absent(
    headers: Seq<Seq<char>>,
    rows: Seq<Seq<Seq<char>>>,
    h: Seq<char>,
    null_tokens: Seq<Seq<char>>,
)
    requires
        !headers.contains(h),
    ensures
        rows_cells(headers, rows, h, null_tokens) == profile::nulls(rows.len()),
    decreases rows.len(),
{
    if rows.len() > 0 {
        lemma_rows_absent(headers, rows.drop_last(), h, null_tokens);
        lemma_positions(headers, h);
    }
    assert(rows_cells(headers, rows, h, null_tokens) =~= profile::nulls(rows.len()));
}

proof fn lemma_order_unique(grids: Seq<Grid>)
    ensures
        column_order(grids).no_duplicates(),
    decreases grids.len(),
{
    if grids.len() > 0 {
        lemma_order_unique(grids.drop_last());
        lemma_first_seen(column_order(grids.drop_last()), grids.last().headers);
    }
}

/// Whether every cell of a file is short enough for its digits to be counted.
fn all_short(t: &Table) -> (out: bool)
    ensures
        out == short_cells(t@),
{
    for r in 0..t.rows.len()
        invariant
            forall|q: int, i: int|
                0 <= q < r && 0 <= i < t@.rows[q].len() ==> (#[trigger] t@.rows[q][i]).len()
                    <= profile::longest_cell(),
    {
        let row = &t.rows[r];
        for i in 0..row.len()
            invariant
                r < t.rows@.len(),
                *row == t.rows@[r as int],
                forall|q: int, j: int|
                    0 <= q < r && 0 <= j < t@.rows[q].len() ==> (#[trigger] t@.rows[q][j]).len()
                        <= profile::longest_cell(),
                forall|j: int|
                    0 <= j < i ==> (#[trigger] t@.rows[r as int][j]).len()
                        <= profile::longest_cell(),
        {
            let len = row[i].as_str().unicode_len();
            assert(t@.rows[r as int][i as int] == row@[i as int]@);
            if len > usize::MAX / 2 {
                return false;
            }
        }
    }
    true
}

/// Whether a file's cells of a column can be counted on top of `seen` others.
fn column_room(t: &Table, h: &str, seen: u128) -> (out: bool)
    requires
        seen <= 2 * usize::MAX,
    ensures
        out == (seen + column_cells(t@, h@) <= usize::MAX),
{
    let at = find_positions(&t.headers, h);
    let wide: usize = if at.len() > 1 {
        at.len()
    } else {
        1
    };
    let rows = t.rows.len();
    proof {
        let m = usize::MAX as int;
        assert(rows as int * wide as int <= m * m) by (nonlinear_arith)
            requires
                0 <= rows <= m,
                0 <= wide <= m,
        ;
        assert(m * m + 2 * m <= u128::MAX) by (nonlinear_arith)
            requires
                m <= 0xffff_ffff_ffff_ffff,
                0 <= m,
        ;
    }
    rows as u128 * wide as u128 + seen <= usize::MAX as u128
}

impl<'a> Scan<'a> {
    /// Each column's accumulator has observed what the files hold in it.
    pub open spec fn wf(&self) -> bool {
        &&& text::texts(self.order@) == column_order(self.grids@)
        &&& self.accs@.len() == self.order@.len()
        &&& forall|c: int|
            0 <= c < self.accs@.len() ==> {
                &&& (#[trigger] self.accs@[c]).wf()
                &&& self.accs@[c].enum_cap == self.opts.enum_max
                &&& self.accs@[c].seen@ == observed(
                    self.grids@,
                    self.order@[c]@,
                    self.opts.nulls(),
                )
            }
        &&& match self.first_headers {
            Some(first) => self.grids@.len() > 0 && text::texts(first@) == self.grids@[0].headers,
            None => self.grids@.len() == 0,
        }
        &&& self.rows == total_rows(self.grids@)
        &&& self.sources@.len() == self.grids@.len()
    }

    pub fn new(opts: &'a Options) -> (out: Scan<'a>)
        ensures
            out.wf(),
            out.opts == opts,
            out.grids@ == Seq::<Grid>::empty(),
            out.sources@ == Seq::<String>::empty(),
    {
        let out = Scan {
            opts,
            order: Vec::new(),
            accs: Vec::new(),
            first_headers: None,
            rows: 0,
            sources: Vec::new(),
            grids: Ghost(Seq::empty()),
        };
        assert(text::texts(out.order@) =~= column_order(out.grids@));
        out
    }

    /// Take one file into account. In strict mode it must carry the columns
    /// of the first one: they are not meant to change, so drift is almost
    /// always a mistake.
    pub fn add_table(&mut self, source: &str, t: &Table) -> (out: Result<()>)
        requires
            old(self).wf(),
        ensures
            final(self).wf(),
            final(self).opts == old(self).opts,
            match out {
                Ok(_) => {
                    &&& file_fault(old(self).grids@, source@, t@, old(self).opts.strict) is None
                    &&& final(self).grids@ == old(self).grids@.push(t@)
                    &&& text::texts(final(self).sources@) == text::texts(old(self).sources@).push(
                        source@,
                    )
                },
                Err(e) => {
                    &&& file_fault(old(self).grids@, source@, t@, old(self).opts.strict) == Some(e@)
                    &&& *final(self) == *old(self)
                },
            },
    {
        if self.opts.strict {
            if let Some(first) = &self.first_headers {
                if let Err(e) = check_headers(source, first.as_slice(), t.headers.as_slice()) {
                    return Err(e);
                }
            }
        }
        if let Some(fault) = &t.fault {
            return Err(row_error(source, t.rows.len(), fault));
        }
        let ghost g = t@;
        if !self.room_for(t) || !all_short(t) {
            return Err(Error::TooLarge { source: source.to_owned() });
        }
        let ghost was = *self;
        self.add_columns(t);
        proof {
            lemma_first_seen(text::texts(was.order@), g.headers);
            assert forall|c: int| 0 <= c < self.order@.len() implies column_countable(
                was.grids@,
                g,
                (#[trigger] self.order@[c])@,
            ) by {
                let order = text::texts(self.order@);
                assert(order[c] == self.order@[c]@);
                assert(first_seen(text::texts(was.order@), g.headers).contains(order[c]));
            }
        }
        self.scan_columns(t);
        self.rows += t.rows.len();
        if self.first_headers.is_none() {
            self.first_headers = Some(text::copies(t.headers.as_slice()));
        }
        self.sources.push(source.to_owned());
        proof {
            self.grids = Ghost(was.grids@.push(g));
            assert(was.grids@.push(g).drop_last() =~= was.grids@);
            assert(text::texts(self.sources@) =~= text::texts(was.sources@).push(source@));
            assert forall|c: int| 0 <= c < self.accs@.len() implies {
                &&& (#[trigger] self.accs@[c]).wf()
                &&& self.accs@[c].enum_cap == self.opts.enum_max
                &&& self.accs@[c].seen@ == observed(
                    self.grids@,
                    self.order@[c]@,
                    self.opts.nulls(),
                )
            } by {}
        }
        Ok(())
    }

    /// Whether the rows of one more file, and the cells of each column, can be
    /// counted.
    fn room_for(&self, t: &Table) -> (out: bool)
        requires
            self.wf(),
        ensures
            out == counts_fit(self.grids@, t@),
    {
        let ghost grids = self.grids@;
        let ghost g = t@;
        let ghost order = column_order(grids);
        if self.rows as u128 + t.rows.len() as u128 > usize::MAX as u128 {
            return false;
        }
        for c in 0..self.order.len()
            invariant
                self.wf(),
                grids == self.grids@,
                g == t@,
                order == column_order(grids),
                forall|k: int| 0 <= k < c ==> column_countable(grids, g, #[trigger] order[k]),
        {
            let acc = &self.accs[c];
            let h = self.order[c].as_str();
            proof {
                assert(order[c as int] == h@);
                lemma_observed_len(grids, h@, self.opts.nulls());
                profile::lemma_present_push(acc.seen@, None);
            }
            let seen: u128 = acc.non_null as u128 + acc.null_count as u128;
            if !column_room(t, h, seen) {
                assert(order.contains(h@) && !column_countable(grids, g, h@));
                return false;
            }
        }
        for i in 0..t.headers.len()
            invariant
                self.wf(),
                grids == self.grids@,
                g == t@,
                order == column_order(grids),
                forall|k: int|
                    0 <= k < order.len() ==> column_countable(grids, g, #[trigger] order[k]),
                forall|k: int|
                    0 <= k < i ==> column_countable(grids, g, #[trigger] g.headers[k]),
        {
            let h = t.headers[i].as_str();
            assert(g.headers[i as int] == h@);
            if listed(&self.order, h) {
                proof {
                    let k = choose|k: int| 0 <= k < order.len() && order[k] == h@;
                    assert(column_countable(grids, g, order[k]));
                }
            } else {
                proof {
                    lemma_observed_absent(grids, h@, self.opts.nulls());
                    lemma_observed_len(grids, h@, self.opts.nulls());
                }
                if !column_room(t, h, self.rows as u128) {
                    assert(g.headers.contains(h@) && !column_countable(grids, g, h@));
                    return false;
                }
            }
        }
        proof {
            assert forall|h: Seq<char>|
                order.contains(h) || g.headers.contains(h) implies #[trigger] column_countable(
                grids,
                g,
                h,
            ) by {
                if order.contains(h) {
                    let k = choose|k: int| 0 <= k < order.len() && order[k] == h;
                    assert(column_countable(grids, g, order[k]));
                } else {
                    let k = choose|k: int| 0 <= k < g.headers.len() && g.headers[k] == h;
                    assert(column_countable(grids, g, g.headers[k]));
                }
            }
        }
        true
    }

    /// Make room for the columns that a file is the first to have. Its rows so
    /// far count as missing.
    fn add_columns(&mut self, t: &Table)
        requires
            old(self).wf(),
        ensures
            *final(self) == (Scan { order: final(self).order, accs: final(self).accs, ..*old(self) }),
            text::texts(final(self).order@) == first_seen(
                text::texts(old(self).order@),
                t@.headers,
            ),
            final(self).accs@.len() == final(self).order@.len(),
            forall|c: int|
                0 <= c < final(self).accs@.len() ==> {
                    &&& (#[trigger] final(self).accs@[c]).wf()
                    &&& final(self).accs@[c].enum_cap == old(self).opts.enum_max
                    &&& final(self).accs@[c].seen@ == observed(
                        old(self).grids@,
                        final(self).order@[c]@,
                        old(self).opts.nulls(),
                    )
                },
    {
        let ghost was = *self;
        let ghost before = text::texts(was.order@);
        let ghost headers = t@.headers;
        for i in 0..t.headers.len()
            invariant
                *self == (Scan { order: self.order, accs: self.accs, ..was }),
                was.wf(),
                headers == t@.headers,
                before == text::texts(was.order@),
                text::texts(self.order@) == first_seen(before, headers.take(i as int)),
                self.accs@.len() == self.order@.len(),
                forall|c: int|
                    0 <= c < self.accs@.len() ==> {
                        &&& (#[trigger] self.accs@[c]).wf()
                        &&& self.accs@[c].enum_cap == was.opts.enum_max
                        &&& self.accs@[c].seen@ == observed(
                            was.grids@,
                            self.order@[c]@,
                            was.opts.nulls(),
                        )
                    },
        {
            let h = &t.headers[i];
            proof {
                assert(headers.take(i + 1).drop_last() =~= headers.take(i as int));
                assert(headers[i as int] == h@);
                lemma_first_seen(before, headers.take(i as int));
            }
            if !listed(&self.order, h.as_str()) {
                let ghost known = *self;
                proof {
                    assert(!before.contains(h@));
                    lemma_observed_absent(was.grids@, h@, was.opts.nulls());
                }
                self.order.push(h.clone());
                self.accs.push(Accumulator::after_nulls(self.opts.enum_max, self.rows));
                proof {
                    assert(text::texts(self.order@) =~= text::texts(known.order@).push(h@));
                    assert forall|c: int| 0 <= c < self.accs@.len() implies {
                        &&& (#[trigger] self.accs@[c]).wf()
                        &&& self.accs@[c].enum_cap == was.opts.enum_max
                        &&& self.accs@[c].seen@ == observed(
                            was.grids@,
                            self.order@[c]@,
                            was.opts.nulls(),
                        )
                    } by {
                        if c < known.accs@.len() {
                            assert(self.accs@[c] == known.accs@[c]);
                        }
                    }
                }
            }
        }
        assert(headers.take(headers.len() as int) =~= headers);
    }

    /// Take a file's cells into account, column by column.
    fn scan_columns(&mut self, t: &Table)
        requires
            old(self).accs@.len() == old(self).order@.len(),
            short_cells(t@),
            forall|c: int|
                0 <= c < old(self).order@.len() ==> column_countable(
                    old(self).grids@,
                    t@,
                    (#[trigger] old(self).order@[c])@,
                ),
            forall|c: int|
                0 <= c < old(self).accs@.len() ==> {
                    &&& (#[trigger] old(self).accs@[c]).wf()
                    &&& old(self).accs@[c].enum_cap == old(self).opts.enum_max
                    &&& old(self).accs@[c].seen@ == observed(
                        old(self).grids@,
                        old(self).order@[c]@,
                        old(self).opts.nulls(),
                    )
                },
        ensures
            *final(self) == (Scan { accs: final(self).accs, ..*old(self) }),
            final(self).accs@.len() == old(self).order@.len(),
            forall|c: int|
                0 <= c < final(self).accs@.len() ==> {
                    &&& (#[trigger] final(self).accs@[c]).wf()
                    &&& final(self).accs@[c].enum_cap == old(self).opts.enum_max
                    &&& final(self).accs@[c].seen@ == observed(
                        old(self).grids@.push(t@),
                        old(self).order@[c]@,
                        old(self).opts.nulls(),
                    )
                },
    {
        let ghost was = *self;
        let ghost g = t@;
        assert(was.grids@.push(g).drop_last() =~= was.grids@);
        let count = self.order.len();
        for c in 0..count
            invariant
                count == was.order@.len(),
                *self == (Scan { accs: self.accs, ..was }),
                g == t@,
                was.grids@.push(g).drop_last() == was.grids@,
                self.accs@.len() == was.order@.len(),
                short_cells(g),
                forall|k: int|
                    0 <= k < was.order@.len() ==> column_countable(
                        was.grids@,
                        g,
                        (#[trigger] was.order@[k])@,
                    ),
                forall|k: int|
                    c <= k < self.accs@.len() ==> {
                        &&& (#[trigger] self.accs@[k]).wf()
                        &&& self.accs@[k].enum_cap == was.opts.enum_max
                        &&& self.accs@[k].seen@ == observed(
                            was.grids@,
                            was.order@[k]@,
                            was.opts.nulls(),
                        )
                    },
                forall|k: int|
                    0 <= k < c ==> {
                        &&& (#[trigger] self.accs@[k]).wf()
                        &&& self.accs@[k].enum_cap == was.opts.enum_max
                        &&& self.accs@[k].seen@ == observed(
                            was.grids@.push(g),
                            was.order@[k]@,
                            was.opts.nulls(),
                        )
                    },
        {
            proof {
                lemma_observed_len(was.grids@, was.order@[c as int]@, was.opts.nulls());
            }
            scan_column(
                &mut self.accs[c],
                t,
                self.order[c].as_str(),
                self.opts.null_tokens.as_slice(),
            );
        }
    }
}

/// Whether a text is among others.
pub fn listed(items: &Vec<String>, h: &str) -> (out: bool)
    ensures
        out == text::texts(items@).contains(h@),
{
    for i in 0..items.len()
        invariant
            forall|j: int| 0 <= j < i ==> #[trigger] text::texts(items@)[j] != h@,
    {
        if text::same(items[i].as_str(), h) {
            assert(text::texts(items@)[i as int] == h@);
            return true;
        }
    }
    false
}

/// The column that a header, an identifier and the observed cells make.
pub open spec fn column_of(
    header: Seq<char>,
    ident: Seq<char>,
    cells: Seq<Option<Seq<char>>>,
    enum_max: nat,
    is_attr: bool,
) -> ColumnFacts {
    let values = profile::present(cells);
    ColumnFacts {
        header,
        ident,
        ty: profile::type_of(values),
        nullable: values.len() < cells.len() || values.len() == 0,
        enum_values: if is_attr {
            profile::enum_of(cells, enum_max)
        } else {
            None
        },
        profile: profile::profile_of(cells, enum_max),
    }
}

/// The identifiers of the attributes, each told apart from those before it.
pub open spec fn attr_idents(names: Seq<Seq<char>>, used: Set<Seq<char>>) -> Seq<Seq<char>>
    decreases names.len(),
{
    if names.len() == 0 {
        seq![]
    } else {
        let front = attr_idents(names.drop_last(), used);
        front.push(ident::ident_of(names.last(), used.union(front.to_set()), true))
    }
}

/// The headers other than the key's.
pub open spec fn without(order: Seq<Seq<char>>, key: Seq<char>) -> Seq<Seq<char>>
    decreases order.len(),
{
    if order.len() == 0 {
        seq![]
    } else if order.last() == key {
        without(order.drop_last(), key)
    } else {
        without(order.drop_last(), key).push(order.last())
    }
}

/// The columns other than the key's, where some identifiers are taken.
pub open spec fn attr_columns(
    grids: Seq<Grid>,
    opts: Options,
    key: Seq<char>,
    taken: Set<Seq<char>>,
) -> Seq<ColumnFacts> {
    let names = without(column_order(grids), key);
    let idents = attr_idents(names, taken);
    Seq::new(
        names.len(),
        |i: int|
            column_of(
                names[i],
                idents[i],
                observed(grids, names[i], opts.nulls()),
                opts.enum_max as nat,
                true,
            ),
    )
}

/// The schema of a key header and the columns of the files.
pub open spec fn schema_with_key(
    grids: Seq<Grid>,
    sources: Seq<Seq<char>>,
    opts: Options,
    key: Seq<char>,
) -> SchemaFacts {
    let key_ident = ident::ident_of(key, Set::empty(), false);
    SchemaFacts {
        name: ident::ident_of(opts.schema@, Set::empty(), false),
        key: column_of(
            key,
            key_ident,
            observed(grids, key, opts.nulls()),
            opts.enum_max as nat,
            false,
        ),
        attrs: attr_columns(grids, opts, key, Set::empty().insert(key_ident)),
        sources,
    }
}

/// The schema that the files make.
pub open spec fn schema_of(
    grids: Seq<Grid>,
    sources: Seq<Seq<char>>,
    opts: Options,
) -> std::result::Result<SchemaFacts, Fault> {
    let order = column_order(grids);
    if order.len() == 0 {
        Err(Fault::Schema("no columns found in any input CSV"@))
    } else {
        match ident::key_of(order, profile::text_opt(opts.key)) {
            Ok(key) => Ok(schema_with_key(grids, sources, opts, key)),
            Err(e) => Err(e),
        }
    }
}

/// The key is one of the columns.
pub proof fn lemma_key_listed(order: Seq<Seq<char>>, explicit: Option<Seq<char>>)
    requires
        order.len() > 0,
    ensures
        ident::key_of(order, explicit) matches Ok(key) ==> order.contains(key),
{
    match explicit {
        Some(name) => {
            lemma_named_listed(order, name);
        },
        None => {
            lemma_likely_listed(order, ident::preferred());
        },
    }
}

proof fn lemma_named_listed(order: Seq<Seq<char>>, name: Seq<char>)
    ensures
        ident::named(order, name) matches Some(h) ==> order.contains(h) && text::lowered(h)
            == text::lowered(name),
    decreases order.len(),
{
    if order.len() > 0 {
        let rest = order.drop_first();
        lemma_named_listed(rest, name);
        if let Some(h) = ident::named(order, name) {
            if h != order[0] {
                let i = choose|i: int| 0 <= i < rest.len() && rest[i] == h;
                assert(order[i + 1] == h);
            }
        }
    }
}

proof fn lemma_identified_listed(order: Seq<Seq<char>>, name: Seq<char>)
    ensures
        ident::identified(order, name) matches Some(h) ==> order.contains(h),
    decreases order.len(),
{
    if order.len() > 0 {
        let rest = order.drop_first();
        lemma_identified_listed(rest, name);
        if let Some(h) = ident::identified(order, name) {
            if h != order[0] {
                let i = choose|i: int| 0 <= i < rest.len() && rest[i] == h;
                assert(order[i + 1] == h);
            }
        }
    }
}

proof fn lemma_likely_listed(order: Seq<Seq<char>>, idents: Seq<Seq<char>>)
    requires
        order.len() > 0,
    ensures
        order.contains(ident::likely_key(order, idents)),
    decreases idents.len(),
{
    if idents.len() > 0 {
        lemma_identified_listed(order, idents[0]);
        lemma_likely_listed(order, idents.drop_first());
    }
}

/// One column of the schema.
fn make_column(header: &str, acc: &Accumulator, used: &mut TextSet, is_attr: bool) -> (out: Column)
    requires
        acc.wf(),
        old(used).wf(),
    ensures
        out@ == column_of(
            header@,
            ident::ident_of(header@, old(used)@, is_attr),
            acc.seen@,
            acc.enum_cap as nat,
            is_attr,
        ),
        final(used).wf(),
        final(used)@ == old(used)@.insert(out@.ident),
{
    let ident = ident::sanitize_ident(header, used, is_attr);
    proof {
        profile::lemma_present_push(acc.seen@, None);
    }
    Column {
        header: header.to_owned(),
        ident,
        ty: acc.col_type(),
        nullable: acc.saw_null || acc.non_null == 0,
        enum_values: if is_attr {
            acc.enum_values()
        } else {
            None
        },
        profile: acc.profile(),
    }
}

impl<'a> Scan<'a> {
    /// Resolve the schema of the files scanned.
    pub fn finish(self) -> (out: Result<Schema>)
        requires
            self.wf(),
        ensures
            match out {
                Ok(schema) => schema_of(
                    self.grids@,
                    text::texts(self.sources@),
                    *self.opts,
                ) == Ok::<SchemaFacts, Fault>(schema@),
                Err(e) => schema_of(self.grids@, text::texts(self.sources@), *self.opts) == Err::<
                    SchemaFacts,
                    Fault,
                >(e@),
            },
    {
        if self.order.len() == 0 {
            return Err(Error::Schema("no columns found in any input CSV".to_owned()));
        }
        let explicit: Option<&str> = match &self.opts.key {
            Some(name) => Some(name.as_str()),
            None => None,
        };
        let key_header = match ident::choose_key(self.order.as_slice(), explicit) {
            Ok(h) => h,
            Err(e) => {
                return Err(e);
            },
        };
        proof {
            lemma_key_listed(column_order(self.grids@), profile::text_opt(self.opts.key));
        }
        let mut used = TextSet::new();
        let at = self.find_column(key_header.as_str());
        let key = make_column(key_header.as_str(), &self.accs[at], &mut used, false);
        let attrs = self.make_attrs(key_header.as_str(), used);
        let mut none = TextSet::new();
        let name = ident::sanitize_ident(self.opts.schema.as_str(), &mut none, false);
        Ok(Schema { name, key, attrs, sources: self.sources })
    }

    /// The columns other than the key's.
    fn make_attrs(&self, key_header: &str, taken: TextSet) -> (out: Vec<Column>)
        requires
            self.wf(),
            taken.wf(),
        ensures
            columns_view(out@) == attr_columns(self.grids@, *self.opts, key_header@, taken@),
    {
        let ghost order = column_order(self.grids@);
        let ghost start = taken@;
        let mut used = taken;
        let mut attrs: Vec<Column> = Vec::new();
        let ghost mut names = without(order.take(0), key_header@);
        let ghost mut idents = attr_idents(names, start);
        assert(start.union(idents.to_set()) =~= start);
        for c in 0..self.order.len()
            invariant
                self.wf(),
                order == column_order(self.grids@),
                names == without(order.take(c as int), key_header@),
                idents == attr_idents(names, start),
                idents.len() == names.len(),
                attrs@.len() == names.len(),
                used.wf(),
                used@ == start.union(idents.to_set()),
                forall|i: int|
                    0 <= i < attrs@.len() ==> (#[trigger] attrs@[i])@ == column_of(
                        names[i],
                        idents[i],
                        observed(self.grids@, names[i], self.opts.nulls()),
                        self.opts.enum_max as nat,
                        true,
                    ),
        {
            let header = &self.order[c];
            proof {
                assert(order.take(c + 1).drop_last() =~= order.take(c as int));
                assert(order.take(c + 1).last() == header@);
            }
            if !text::same(header.as_str(), key_header) {
                let column = make_column(header.as_str(), &self.accs[c], &mut used, true);
                attrs.push(column);
                proof {
                    let id = column@.ident;
                    order::lemma_push_set(idents, id);
                    assert(names.push(header@).drop_last() =~= names);
                    names = names.push(header@);
                    idents = idents.push(id);
                    assert(used@ =~= start.union(idents.to_set()));
                }
            }
        }
        assert(order.take(order.len() as int) =~= order);
        attrs
    }

    fn find_column(&self, h: &str) -> (out: usize)
        requires
            self.wf(),
            column_order(self.grids@).contains(h@),
        ensures
            out < self.accs@.len(),
            self.order@[out as int]@ == h@,
    {
        let mut i: usize = 0;
        while i < self.order.len()
            invariant
                self.wf(),
                i <= self.order@.len(),
                forall|j: int| 0 <= j < i ==> (#[trigger] self.order@[j])@ != h@,
            decreases self.order@.len() - i,
        {
            if text::same(self.order[i].as_str(), h) {
                return i;
            }
            i += 1;
        }
        proof {
            let order = text::texts(self.order@);
            let j = choose|j: int| 0 <= j < order.len() && order[j] == h@;
            assert(self.order@[j]@ == h@);
        }
        0
    }
}

/// One listed file: what the manifest says of it, and its text.
pub struct SourceFile {
    pub entry: Entry,
    pub bytes: Vec<u8>,
}

/// The names of the files, as the manifest spells them.
pub open spec fn source_names(files: Seq<SourceFile>) -> Seq<Seq<char>> {
    Seq::new(files.len(), |i: int| files[i].entry.source@)
}

/// The tables of the files, or what stops the scan.
pub open spec fn scanned(files: Seq<SourceFile>, strict: bool) -> std::result::Result<
    Seq<Grid>,
    Fault,
>
    decreases files.len(),
{
    if files.len() == 0 {
        Ok(seq![])
    } else {
        match scanned(files.drop_last(), strict) {
            Ok(grids) => match table::grid_of(files.last().bytes@, !strict) {
                Ok(g) => match file_fault(grids, files.last().entry.source@, g, strict) {
                    Some(fault) => Err(fault),
                    None => Ok(grids.push(g)),
                },
                Err(fault) => Err(fault),
            },
            Err(fault) => Err(fault),
        }
    }
}

/// The schema of the files, or why there is none.
pub open spec fn inferred(files: Seq<SourceFile>, opts: Options) -> std::result::Result<
    SchemaFacts,
    Fault,
> {
    match scanned(files, opts.strict) {
        Ok(grids) => schema_of(grids, source_names(files), opts),
        Err(fault) => Err(fault),
    }
}

proof fn lemma_scanned_prefix(files: Seq<SourceFile>, n: int, strict: bool)
    requires
        0 <= n <= files.len(),
        scanned(files.take(n), strict) is Err,
    ensures
        scanned(files, strict) == scanned(files.take(n), strict),
    decreases files.len() - n,
{
    if n < files.len() {
        assert(files.take(n + 1).drop_last() =~= files.take(n));
        lemma_scanned_prefix(files, n + 1, strict);
    } else {
        assert(files.take(n) =~= files);
    }
}

/// Whether no file has a ragged row.
pub open spec fn all_rectangular(grids: Seq<Grid>) -> bool {
    forall|k: int| 0 <= k < grids.len() ==> table::rectangular(#[trigger] grids[k])
}

/// Scan every CSV in `files` and resolve a [`Schema`]. In strict mode no file
/// that is accepted has a ragged row.
///
/// Headers are unioned in first-seen order; columns are not meant to change
/// from month to month, but tolerating an occasional missing column (its rows
/// simply count as null) is cheap and safer than failing the whole run.
pub fn build_schema(files: &[SourceFile], opts: &Options) -> (out: Result<Schema>)
    ensures
        match out {
            Ok(schema) => inferred(files@, *opts) == Ok::<SchemaFacts, Fault>(schema@),
            Err(e) => inferred(files@, *opts) == Err::<SchemaFacts, Fault>(e@),
        },
        opts.strict ==> (scanned(files@, true) matches Ok(grids) ==> all_rectangular(grids)),
{
    let mut scan = Scan::new(opts);
    assert(source_names(files@.take(0)) =~= seq![]);
    for i in 0..files.len()
        invariant
            scan.wf(),
            scan.opts == opts,
            scanned(files@.take(i as int), opts.strict) == Ok::<Seq<Grid>, Fault>(scan.grids@),
            text::texts(scan.sources@) == source_names(files@.take(i as int)),
            opts.strict ==> all_rectangular(scan.grids@),
    {
        let file = &files[i];
        proof {
            assert(files@.take(i + 1).drop_last() =~= files@.take(i as int));
            assert(files@.take(i + 1).last() == file);
            assert(source_names(files@.take(i + 1)) =~= source_names(files@.take(i as int)).push(
                file.entry.source@,
            ));
        }
        let t = match table::read_table(file.bytes.as_slice(), !opts.strict) {
            Ok(t) => t,
            Err(e) => {
                proof {
                    lemma_scanned_prefix(files@, i + 1, opts.strict);
                }
                return Err(e);
            },
        };
        if let Err(e) = scan.add_table(file.entry.source.as_str(), &t) {
            proof {
                lemma_scanned_prefix(files@, i + 1, opts.strict);
            }
            return Err(e);
        }
    }
    assert(files@.take(files@.len() as int) =~= files@);
    scan.finish()
}

proof fn lemma_present_contains(cells: Seq<Option<Seq<char>>>, i: int)
    requires
        0 <= i < cells.len(),
    ensures
        cells[i] matches Some(v) ==> profile::present(cells).contains(v),
        cells[i] is None ==> profile::present(cells).len() < cells.len(),
    decreases cells.len(),
{
    let p = cells.drop_last();
    profile::lemma_present_push(p, cells.last());
    assert(p.push(cells.last()) =~= cells);
    if i < p.len() {
        assert(p[i] == cells[i]);
        lemma_present_contains(p, i);
        if let Some(v) = cells[i] {
            let q = profile::present(p);
            let k = choose|k: int| 0 <= k < q.len() && q[k] == v;
            assert(profile::present(cells)[k] == v);
        }
    } else if let Some(v) = cells[i] {
        assert(profile::present(cells).last() == v);
    }
}

/// The cell of a row under a header is among the column's cells.
proof fn lemma_cell_observed(
    grids: Seq<Grid>,
    h: Seq<char>,
    null_tokens: Seq<Seq<char>>,
    file: int,
    row: int,
    at: int,
) -> (i: int)
    requires
        0 <= file < grids.len(),
        0 <= row < grids[file].rows.len(),
        0 <= at < grids[file].headers.len(),
        grids[file].headers[at] == h,
    ensures
        0 <= i < observed(grids, h, null_tokens).len(),
        observed(grids, h, null_tokens)[i] == util::cell(
            table::cell_at(grids[file].rows[row], at),
            null_tokens,
        ),
    decreases grids.len(),
{
    let last = grids.len() - 1;
    let before = observed(grids.drop_last(), h, null_tokens);
    if file < last {
        assert(grids.drop_last()[file] == grids[file]);
        lemma_cell_observed(grids.drop_last(), h, null_tokens, file, row, at)
    } else {
        before.len() + lemma_cell_in_rows(
            grids[file].headers,
            grids[file].rows,
            h,
            null_tokens,
            row,
            at,
        )
    }
}

proof fn lemma_cell_in_rows(
    headers: Seq<Seq<char>>,
    rows: Seq<Seq<Seq<char>>>,
    h: Seq<char>,
    null_tokens: Seq<Seq<char>>,
    row: int,
    at: int,
) -> (i: int)
    requires
        0 <= row < rows.len(),
        0 <= at < headers.len(),
        headers[at] == h,
    ensures
        0 <= i < rows_cells(headers, rows, h, null_tokens).len(),
        rows_cells(headers, rows, h, null_tokens)[i] == util::cell(
            table::cell_at(rows[row], at),
            null_tokens,
        ),
    decreases rows.len(),
{
    let before = rows_cells(headers, rows.drop_last(), h, null_tokens);
    if row < rows.len() - 1 {
        assert(rows.drop_last()[row] == rows[row]);
        lemma_cell_in_rows(headers, rows.drop_last(), h, null_tokens, row, at)
    } else {
        before.len() + lemma_position_listed(headers, h, at)
    }
}

proof fn lemma_position_listed(headers: Seq<Seq<char>>, h: Seq<char>, at: int) -> (k: int)
    requires
        0 <= at < headers.len(),
        headers[at] == h,
    ensures
        0 <= k < positions(headers, h).len(),
        positions(headers, h)[k] == at,
    decreases headers.len(),
{
    if at < headers.len() - 1 {
        assert(headers.drop_last()[at] == h);
        lemma_position_listed(headers.drop_last(), h, at)
    } else {
        positions(headers, h).len() - 1
    }
}

/// A column says of every cell under its header, in whichever month it
/// stands: a value fits the column's type, lies within the observed lengths,
/// and is listed where the column is enum-like, so a rare value of a late
/// month is captured too; and a column that is not nullable has no missing
/// cell.
pub proof fn lemma_every_month_counts(
    grids: Seq<Grid>,
    h: Seq<char>,
    ident: Seq<char>,
    opts: Options,
    is_attr: bool,
    file: int,
    row: int,
    at: int,
)
    requires
        0 <= file < grids.len(),
        0 <= row < grids[file].rows.len(),
        0 <= at < grids[file].headers.len(),
        grids[file].headers[at] == h,
    ensures
        ({
            let column = column_of(
                h,
                ident,
                observed(grids, h, opts.nulls()),
                opts.enum_max as nat,
                is_attr,
            );
            match util::cell(table::cell_at(grids[file].rows[row], at), opts.nulls()) {
                Some(v) => {
                    &&& scalar::fits(column.ty, v)
                    &&& column.enum_values matches Some(listed) ==> listed.contains(v)
                    &&& column.profile.len_range matches Some((lo, hi)) && lo <= v.len() <= hi
                    &&& column.profile.non_null > 0
                },
                None => column.nullable && column.profile.null_count > 0,
            }
        }),
{
    let cells = observed(grids, h, opts.nulls());
    let i = lemma_cell_observed(grids, h, opts.nulls(), file, row, at);
    lemma_present_contains(cells, i);
    let values = profile::present(cells);
    if let Some(v) = cells[i] {
        let k = choose|k: int| 0 <= k < values.len() && values[k] == v;
        profile::lemma_type_is_most_specific(values, ColType::Text);
        profile::lemma_len_range_bounds(cells, opts.enum_max as nat);
        profile::lemma_enum_complete(cells, opts.enum_max as nat);
        assert(values.to_set().contains(v));
    }
}

/// A column that some file lacks is nullable, as soon as that file has a row.
pub proof fn lemma_missing_column_is_null(
    grids: Seq<Grid>,
    h: Seq<char>,
    ident: Seq<char>,
    opts: Options,
    is_attr: bool,
    file: int,
)
    requires
        0 <= file < grids.len(),
        grids[file].rows.len() > 0,
        !grids[file].headers.contains(h),
    ensures
        column_of(
            h,
            ident,
            observed(grids, h, opts.nulls()),
            opts.enum_max as nat,
            is_attr,
        ).nullable,
    decreases grids.len(),
{
    let cells = observed(grids, h, opts.nulls());
    let i = lemma_absent_observed(grids, h, opts.nulls(), file);
    lemma_present_contains(cells, i);
}

proof fn lemma_absent_observed(
    grids: Seq<Grid>,
    h: Seq<char>,
    null_tokens: Seq<Seq<char>>,
    file: int,
) -> (i: int)
    requires
        0 <= file < grids.len(),
        grids[file].rows.len() > 0,
        !grids[file].headers.contains(h),
    ensures
        0 <= i < observed(grids, h, null_tokens).len(),
        observed(grids, h, null_tokens)[i] is None,
    decreases grids.len(),
{
    if file < grids.len() - 1 {
        assert(grids.drop_last()[file] == grids[file]);
        lemma_absent_observed(grids.drop_last(), h, null_tokens, file)
    } else {
        let g = grids[file];
        lemma_positions(g.headers, h);
        observed(grids, h, null_tokens).len() - 1
    }
}

proof fn lemma_without(order: Seq<Seq<char>>, key: Seq<char>)
    requires
        order.no_duplicates(),
    ensures
        without(order, key).no_duplicates(),
        without(order, key).to_set() == order.to_set().remove(key),
    decreases order.len(),
{
    if order.len() == 0 {
        assert(order.to_set().remove(key) =~= without(order, key).to_set());
    } else {
        let p = order.drop_last();
        let x = order.last();
        assert(order =~= p.push(x));
        assert(p.no_duplicates());
        lemma_without(p, key);
        order::lemma_push_set(p, x);
        let w = without(p, key);
        if x == key {
            assert(!p.contains(x)) by {
                if p.contains(x) {
                    let i = choose|i: int| 0 <= i < p.len() && p[i] == x;
                    assert(order[i] == order[order.len() - 1]);
                }
            }
            assert(order.to_set().remove(key) =~= p.to_set().remove(key));
        } else {
            order::lemma_push_set(w, x);
            assert(order.to_set().remove(key) =~= p.to_set().remove(key).insert(x));
            assert(!w.contains(x)) by {
                if w.contains(x) {
                    assert(w.to_set().contains(x));
                    assert(p.contains(x));
                    let i = choose|i: int| 0 <= i < p.len() && p[i] == x;
                    assert(order[i] == order[order.len() - 1]);
                }
            }
        }
    }
}

/// The headers of a schema's columns, the key's first.
pub open spec fn schema_headers(schema: SchemaFacts) -> Seq<Seq<char>> {
    seq![schema.key.header] + Seq::new(schema.attrs.len(), |i: int| schema.attrs[i].header)
}

/// The identifiers of a schema's columns, the key's first.
pub open spec fn schema_idents(schema: SchemaFacts) -> Seq<Seq<char>> {
    seq![schema.key.ident] + Seq::new(schema.attrs.len(), |i: int| schema.attrs[i].ident)
}

/// Every column of every file is either the key or one attribute, and a
/// schema holds no other columns.
pub proof fn lemma_every_column_once(grids: Seq<Grid>, sources: Seq<Seq<char>>, opts: Options)
    ensures
        schema_of(grids, sources, opts) matches Ok(schema) ==> {
            &&& schema_headers(schema).no_duplicates()
            &&& forall|h: Seq<char>|
                schema_headers(schema).contains(h) <==> exists|k: int|
                    0 <= k < grids.len() && (#[trigger] grids[k]).headers.contains(h)
        },
{
    if let Ok(schema) = schema_of(grids, sources, opts) {
        let order = column_order(grids);
        let key = schema.key.header;
        lemma_key_listed(order, profile::text_opt(opts.key));
        lemma_order_unique(grids);
        lemma_without(order, key);
        let names = without(order, key);
        let all = schema_headers(schema);
        assert(all =~= seq![key] + names);
        assert forall|i: int, j: int| 0 <= i < all.len() && 0 <= j < all.len() && i != j implies all[i]
            != all[j] by {
            assert(!names.to_set().contains(key));
            assert(i > 0 ==> names.contains(names[i - 1]));
            assert(j > 0 ==> names.contains(names[j - 1]));
        }
        assert forall|h: Seq<char>|
            all.contains(h) <==> exists|k: int|
                0 <= k < grids.len() && (#[trigger] grids[k]).headers.contains(h) by {
            lemma_order_complete(grids, h);
            assert(order.to_set().contains(key));
            assert(names.to_set().contains(h) == order.to_set().remove(key).contains(h));
            if all.contains(h) {
                let i = choose|i: int| 0 <= i < all.len() && all[i] == h;
                if i > 0 {
                    assert(names[i - 1] == h);
                    assert(names.contains(h));
                }
                assert(order.contains(h));
            }
            if order.contains(h) {
                if h == key {
                    assert(all[0] == h);
                } else {
                    assert(names.contains(h));
                    let i = choose|i: int| 0 <= i < names.len() && names[i] == h;
                    assert(all[i + 1] == h);
                }
            }
        }
    }
}

proof fn lemma_order_complete(grids: Seq<Grid>, h: Seq<char>)
    ensures
        column_order(grids).contains(h) <==> exists|k: int|
            0 <= k < grids.len() && (#[trigger] grids[k]).headers.contains(h),
    decreases grids.len(),
{
    if grids.len() > 0 {
        let p = grids.drop_last();
        let g = grids.last();
        lemma_order_complete(p, h);
        lemma_first_seen(column_order(p), g.headers);
        lemma_first_seen_complete(column_order(p), g.headers, h);
        if exists|k: int| 0 <= k < p.len() && (#[trigger] p[k]).headers.contains(h) {
            let k = choose|k: int| 0 <= k < p.len() && (#[trigger] p[k]).headers.contains(h);
            assert(grids[k].headers.contains(h));
        }
        if exists|k: int| 0 <= k < grids.len() && (#[trigger] grids[k]).headers.contains(h) {
            let k = choose|k: int| 0 <= k < grids.len() && (#[trigger] grids[k]).headers.contains(h);
            if k < p.len() {
                assert(p[k].headers.contains(h));
            }
        }
        if g.headers.contains(h) {
            assert(grids[grids.len() - 1].headers.contains(h));
        }
    }
}

proof fn lemma_first_seen_complete(order: Seq<Seq<char>>, headers: Seq<Seq<char>>, h: Seq<char>)
    ensures
        first_seen(order, headers).contains(h) <==> order.contains(h) || headers.contains(h),
    decreases headers.len(),
{
    if headers.len() > 0 {
        let p = headers.drop_last();
        let x = headers.last();
        assert(headers =~= p.push(x));
        lemma_first_seen_complete(order, p, h);
        order::lemma_push_set(p, x);
        assert(headers.contains(h) == headers.to_set().contains(h));
        assert(p.contains(h) == p.to_set().contains(h));
        let front = first_seen(order, p);
        order::lemma_push_set(front, x);
        assert(front.push(x).contains(h) == front.push(x).to_set().contains(h));
        assert(front.contains(h) == front.to_set().contains(h));
    }
}

/// The identifiers of a schema are safe SQL names, each used once, and those
/// of the attributes stay clear of the columns that every history table has.
pub proof fn lemma_idents_distinct(grids: Seq<Grid>, sources: Seq<Seq<char>>, opts: Options)
    ensures
        schema_of(grids, sources, opts) matches Ok(schema) ==> {
            &&& schema_idents(schema).no_duplicates()
            &&& forall|i: int|
                0 <= i < schema_idents(schema).len() ==> ident::safe(
                    #[trigger] schema_idents(schema)[i],
                )
            &&& forall|i: int|
                0 <= i < schema.attrs.len() ==> !ident::reserved(
                    (#[trigger] schema.attrs[i]).ident,
                )
            &&& ident::safe(schema.name)
        },
{
    if let Ok(schema) = schema_of(grids, sources, opts) {
        let key = schema.key.header;
        let names = without(column_order(grids), key);
        let used = Set::empty().insert(schema.key.ident);
        ident::lemma_ident_safe_and_unique(key, Set::empty(), false);
        ident::lemma_ident_safe_and_unique(opts.schema@, Set::empty(), false);
        lemma_attr_idents(names, used);
        let idents = attr_idents(names, used);
        let all = schema_idents(schema);
        assert(all =~= seq![schema.key.ident] + idents);
        assert forall|i: int, j: int| 0 <= i < all.len() && 0 <= j < all.len() && i != j implies all[i]
            != all[j] by {
            assert(used.contains(schema.key.ident));
        }
        assert forall|i: int| 0 <= i < all.len() implies ident::safe(#[trigger] all[i]) by {
            if i > 0 {
                assert(all[i] == idents[i - 1]);
            }
        }
        assert forall|i: int| 0 <= i < schema.attrs.len() implies !ident::reserved(
            (#[trigger] schema.attrs[i]).ident,
        ) by {
            assert(schema.attrs[i].ident == idents[i]);
        }
    }
}

proof fn lemma_attr_idents(names: Seq<Seq<char>>, used: Set<Seq<char>>)
    requires
        used.finite(),
    ensures
        attr_idents(names, used).len() == names.len(),
        attr_idents(names, used).no_duplicates(),
        forall|i: int|
            0 <= i < names.len() ==> {
                let id = #[trigger] attr_idents(names, used)[i];
                ident::safe(id) && !ident::reserved(id) && !used.contains(id)
            },
    decreases names.len(),
{
    if names.len() > 0 {
        let front = attr_idents(names.drop_last(), used);
        lemma_attr_idents(names.drop_last(), used);
        vstd::seq_lib::seq_to_set_is_finite(front);
        let taken = used.union(front.to_set());
        ident::lemma_ident_safe_and_unique(names.last(), taken, true);
        let id = ident::ident_of(names.last(), taken, true);
        let all = attr_idents(names, used);
        assert(!front.to_set().contains(id));
        assert forall|i: int, j: int| 0 <= i < all.len() && 0 <= j < all.len() && i != j implies all[i]
            != all[j] by {
            assert(i < front.len() ==> front.contains(front[i]));
            assert(j < front.len() ==> front.contains(front[j]));
        }
        assert forall|i: int| 0 <= i < names.len() implies {
            let id = #[trigger] all[i];
            ident::safe(id) && !ident::reserved(id) && !used.contains(id)
        } by {
            if i < front.len() {
                assert(all[i] == front[i]);
            }
        }
    }
}

/// A scan that went through read every record of every file; in strict mode
/// all files have the columns of the first one.
pub proof fn lemma_scan_skips_nothing(files: Seq<SourceFile>, strict: bool, file: int)
    requires
        0 <= file < files.len(),
    ensures
        scanned(files, strict) matches Ok(grids) ==> {
            &&& grids.len() == files.len()
            &&& table::grid_of(files[file].bytes@, !strict) == Ok::<Grid, Fault>(grids[file])
            &&& grids[file].fault is None
            &&& table::all_read(table::csv_records(files[file].bytes@, !strict))
            &&& strict ==> grids[file].headers.to_set() == grids[0].headers.to_set()
        },
    decreases files.len(),
{
    if let Ok(grids) = scanned(files, strict) {
        let p = files.drop_last();
        lemma_scanned_len(p, strict);
        lemma_scanned_len(files, strict);
        if file < p.len() {
            assert(p[file] == files[file]);
            lemma_scan_skips_nothing(p, strict, file);
        } else {
            let g = grids[file];
            let records = table::csv_records(files[file].bytes@, !strict);
            table::lemma_readable_all(records);
        }
    }
}

proof fn lemma_scanned_len(files: Seq<SourceFile>, strict: bool)
    ensures
        scanned(files, strict) matches Ok(grids) ==> grids.len() == files.len(),
    decreases files.len(),
{
    if files.len() > 0 {
        lemma_scanned_len(files.drop_last(), strict);
    }
}

/// In strict mode whatever a file alone is at fault for is reported with its
/// name, unless the `csv` crate could not read the text at all.
pub proof fn lemma_fault_names_file(grids: Seq<Grid>, source: Seq<char>, g: Grid, strict: bool)
    ensures
        file_fault(grids, source, g, strict) matches Some(fault) ==> match fault {
            Fault::Data { source: named, .. } => named == source,
            Fault::TooLarge { source: named } => named == source,
            Fault::Csv(message) => g.fault == Some(Flaw::Csv(message)),
            _ => false,
        },
{
}

/// A header's positions are all the places where it stands, from left to
/// right.
pub proof fn lemma_positions_exact(headers: Seq<Seq<char>>, h: Seq<char>, i: int)
    ensures
        positions(headers, h).contains(i) <==> 0 <= i < headers.len() && headers[i] == h,
        forall|a: int, b: int|
            0 <= a < b < positions(headers, h).len() ==> #[trigger] positions(headers, h)[a]
                < #[trigger] positions(headers, h)[b],
    decreases headers.len(),
{
    lemma_positions(headers, h);
    if 0 <= i < headers.len() && headers[i] == h {
        let k = lemma_position_listed(headers, h, i);
        assert(positions(headers, h)[k] == i);
    }
    if headers.len() > 0 {
        let p = headers.drop_last();
        lemma_positions_exact(p, h, i);
        lemma_positions(p, h);
    }
}

/// A row gives a column the cells under its header, one for each place where
/// it stands, and one missing cell where it stands nowhere.
pub proof fn lemma_row_cells(
    headers: Seq<Seq<char>>,
    row: Seq<Seq<char>>,
    h: Seq<char>,
    null_tokens: Seq<Seq<char>>,
)
    ensures
        !headers.contains(h) ==> row_cells(headers, row, h, null_tokens) == seq![
            None::<Seq<char>>,
        ],
        headers.contains(h) ==> {
            &&& row_cells(headers, row, h, null_tokens).len() == positions(headers, h).len()
            &&& forall|k: int|
                0 <= k < positions(headers, h).len() ==> #[trigger] row_cells(
                    headers,
                    row,
                    h,
                    null_tokens,
                )[k] == util::cell(table::cell_at(row, positions(headers, h)[k]), null_tokens)
        },
{
    lemma_positions(headers, h);
}

/// A column observes the cells of row after row and file after file.
pub proof fn lemma_observed_step(
    grids: Seq<Grid>,
    g: Grid,
    rows: Seq<Seq<Seq<char>>>,
    row: Seq<Seq<char>>,
    h: Seq<char>,
    null_tokens: Seq<Seq<char>>,
)
    ensures
        observed(seq![], h, null_tokens) == Seq::<Option<Seq<char>>>::empty(),
        observed(grids.push(g), h, null_tokens) == observed(grids, h, null_tokens) + rows_cells(
            g.headers,
            g.rows,
            h,
            null_tokens,
        ),
        rows_cells(g.headers, seq![], h, null_tokens) == Seq::<Option<Seq<char>>>::empty(),
        rows_cells(g.headers, rows.push(row), h, null_tokens) == rows_cells(
            g.headers,
            rows,
            h,
            null_tokens,
        ) + row_cells(g.headers, row, h, null_tokens),
        total_rows(seq![]) == 0,
        total_rows(grids.push(g)) == total_rows(grids) + g.rows.len(),
{
    assert(grids.push(g).drop_last() =~= grids);
    assert(rows.push(row).drop_last() =~= rows);
}

/// The columns come in the order in which they are first seen: those of the
/// earlier files, then of a new file those that none of them has, from left to
/// right and each once.
pub proof fn lemma_column_order_step(
    grids: Seq<Grid>,
    headers: Seq<Seq<char>>,
    rows: Seq<Seq<Seq<char>>>,
    h: Seq<char>,
)
    ensures
        column_order(seq![]) == Seq::<Seq<char>>::empty(),
        column_order(grids.push(Grid { headers: seq![], rows, fault: None })) == column_order(grids),
        ({
            let before = column_order(grids.push(Grid { headers, rows, fault: None }));
            column_order(grids.push(Grid { headers: headers.push(h), rows, fault: None }))
                == if before.contains(h) {
                before
            } else {
                before.push(h)
            }
        }),
{
    let a = Grid { headers: seq![], rows, fault: None };
    let b = Grid { headers, rows, fault: None };
    let c = Grid { headers: headers.push(h), rows, fault: None };
    assert(grids.push(a).drop_last() =~= grids);
    assert(grids.push(b).drop_last() =~= grids);
    assert(grids.push(c).drop_last() =~= grids);
    assert(headers.push(h).drop_last() =~= headers);
}

/// A file that can be counted is one that leaves the number of rows, and that
/// of the cells of each column, within what the machine can count, and whose
/// cells are not longer than half of that.
pub proof fn lemma_countable(grids: Seq<Grid>, g: Grid)
    ensures
        countable(grids, g) <==> {
            &&& total_rows(grids.push(g)) <= usize::MAX
            &&& forall|h: Seq<char>|
                column_order(grids).contains(h) || g.headers.contains(h) ==> (#[trigger] observed(
                    grids.push(g),
                    h,
                    seq![],
                )).len() <= usize::MAX
            &&& forall|r: int, i: int|
                0 <= r < g.rows.len() && 0 <= i < g.rows[r].len() ==> (
                #[trigger] g.rows[r][i]).len() <= usize::MAX / 2
        },
{
    assert(grids.push(g).drop_last() =~= grids);
    assert forall|h: Seq<char>| (#[trigger] observed(grids.push(g), h, seq![])).len() <= usize::MAX
        <==> column_countable(grids, g, h) by {
        lemma_observed_len(grids, h, seq![]);
        lemma_observed_len(grids.push(g), h, seq![]);
    }
    if countable(grids, g) {
        assert forall|h: Seq<char>|
            column_order(grids).contains(h) || g.headers.contains(h) implies (#[trigger] observed(
            grids.push(g),
            h,
            seq![],
        )).len() <= usize::MAX by {
            assert(column_countable(grids, g, h));
        }
    }
    if forall|h: Seq<char>|
        column_order(grids).contains(h) || g.headers.contains(h) ==> (#[trigger] observed(
            grids.push(g),
            h,
            seq![],
        )).len() <= usize::MAX {
        assert forall|h: Seq<char>|
            column_order(grids).contains(h)
                || g.headers.contains(h) implies #[trigger] column_countable(grids, g, h) by {
            assert(observed(grids.push(g), h, seq![]).len() <= usize::MAX);
        }
    }
}

/// Header rows agree exactly if they have the same columns; otherwise the
/// message lists, in lexical order, those that are missing and those that are
/// unexpected.
pub proof fn lemma_header_drift(
    source: Seq<char>,
    first: Seq<Seq<char>>,
    headers: Seq<Seq<char>>,
    missing: Set<Seq<char>>,
    extra: Set<Seq<char>>,
)
    requires
        forall|h: Seq<char>| #[trigger]
            missing.contains(h) <==> first.contains(h) && !headers.contains(h),
        forall|h: Seq<char>| #[trigger]
            extra.contains(h) <==> headers.contains(h) && !first.contains(h),
    ensures
        header_fault(source, first, headers) is None <==> missing.is_empty() && extra.is_empty(),
        header_fault(source, first, headers) matches Some(fault) ==> {
            let gone = "missing column(s): "@ + text::joined(order::ordered(missing), ", "@);
            let more = "unexpected column(s): "@ + text::joined(order::ordered(extra), ", "@);
            let list = if extra.is_empty() {
                gone
            } else if missing.is_empty() {
                more
            } else {
                gone + "; "@ + more
            };
            fault == Fault::Data {
                source,
                message: "headers differ from the first file ("@ + list + ")"@,
            }
        },
{
    let want = first.to_set();
    let got = headers.to_set();
    vstd::seq_lib::seq_to_set_is_finite(first);
    vstd::seq_lib::seq_to_set_is_finite(headers);
    assert(want.difference(got) =~= missing);
    assert(got.difference(want) =~= extra);
    if missing.is_empty() && extra.is_empty() {
        assert forall|h: Seq<char>| want.contains(h) == got.contains(h) by {
            assert(!missing.contains(h) && !extra.contains(h));
        }
        assert(want =~= got);
    }
    if want == got {
        assert(missing =~= Set::empty());
        assert(extra =~= Set::empty());
    }
    assert(missing.len() == 0 ==> missing =~= Set::empty());
    assert(extra.len() == 0 ==> extra =~= Set::empty());
    assert(missing.is_empty() ==> missing =~= Set::empty());
    assert(extra.is_empty() ==> extra =~= Set::empty());
    let gone = "missing column(s): "@ + text::joined(order::ordered(missing), ", "@);
    let more = "unexpected column(s): "@ + text::joined(order::ordered(extra), ", "@);
    let a = drift_part("missing column(s): "@, missing);
    let b = drift_part("unexpected column(s): "@, extra);
    if missing.len() > 0 && extra.len() > 0 {
        assert(a + b =~= seq![gone].push(more));
        text::lemma_joined(seq![gone], more, "; "@);
        text::lemma_joined(seq![], gone, "; "@);
    } else if missing.len() > 0 {
        assert(a + b =~= seq![gone]);
        text::lemma_joined(seq![], gone, "; "@);
    } else if extra.len() > 0 {
        assert(a + b =~= seq![more]);
        text::lemma_joined(seq![], more, "; "@);
    }
}

/// A row of another length than the header row is reported with its file, its
/// line and both lengths; any other unreadable record in the words of the
/// reader.
pub proof fn lemma_row_faults(
    source: Seq<char>,
    row: nat,
    expected: u64,
    found: u64,
    words: Seq<char>,
)
    ensures
        row_fault(source, row, Flaw::Ragged { expected, found }) == (Fault::Data {
            source,
            message: "row "@ + text::decimal(row + 2) + ": found "@ + text::decimal(found as nat)
                + " cell(s), expected "@ + text::decimal(expected as nat),
        }),
        row_fault(source, row, Flaw::Csv(words)) == Fault::Csv(words),
{
}

/// What stops a scan at a file: in strict mode columns other than the first
/// file's, then an unreadable record, then more than can be counted, and
/// nothing else.
pub proof fn lemma_file_faults(grids: Seq<Grid>, source: Seq<char>, g: Grid, strict: bool)
    ensures
        strict && grids.len() > 0 && header_fault(source, grids[0].headers, g.headers) is Some
            ==> file_fault(grids, source, g, strict) == header_fault(
            source,
            grids[0].headers,
            g.headers,
        ),
        !strict || grids.len() == 0 || header_fault(source, grids[0].headers, g.headers) is None ==> {
            &&& g.fault matches Some(flaw) ==> file_fault(grids, source, g, strict) == Some(
                row_fault(source, g.rows.len(), flaw),
            )
            &&& g.fault is None && !countable(grids, g) ==> file_fault(grids, source, g, strict)
                == Some(Fault::TooLarge { source })
            &&& g.fault is None && countable(grids, g) ==> file_fault(grids, source, g, strict)
                is None
        },
{
}

/// The files are scanned in order, each with its own text and name, up to the
/// first that is at fault.
pub proof fn lemma_scan_step(files: Seq<SourceFile>, file: SourceFile, strict: bool)
    ensures
        scanned(seq![], strict) == Ok::<Seq<Grid>, Fault>(seq![]),
        match scanned(files, strict) {
            Err(fault) => scanned(files.push(file), strict) == Err::<Seq<Grid>, Fault>(fault),
            Ok(grids) => match table::grid_of(file.bytes@, !strict) {
                Err(fault) => scanned(files.push(file), strict) == Err::<Seq<Grid>, Fault>(fault),
                Ok(g) => match file_fault(grids, file.entry.source@, g, strict) {
                    Some(fault) => scanned(files.push(file), strict) == Err::<Seq<Grid>, Fault>(
                        fault,
                    ),
                    None => scanned(files.push(file), strict) == Ok::<Seq<Grid>, Fault>(
                        grids.push(g),
                    ),
                },
            },
        },
{
    assert(files.push(file).drop_last() =~= files);
}

/// What a column says follows from its own cells: the type of its values, that
/// it is nullable exactly if a cell is missing or there are no values, its
/// profile, and for an attribute its listed values.
pub proof fn lemma_column_says(
    header: Seq<char>,
    ident: Seq<char>,
    cells: Seq<Option<Seq<char>>>,
    enum_max: nat,
    is_attr: bool,
)
    ensures
        ({
            let column = column_of(header, ident, cells, enum_max, is_attr);
            &&& column.header == header
            &&& column.ident == ident
            &&& column.ty == profile::type_of(profile::present(cells))
            &&& column.nullable <==> cells.len() == 0 || exists|i: int|
                0 <= i < cells.len() && #[trigger] cells[i] is None
            &&& column.profile == profile::profile_of(cells, enum_max)
            &&& is_attr ==> column.enum_values == profile::enum_of(cells, enum_max)
            &&& !is_attr ==> column.enum_values is None
        }),
{
    lemma_all_present(cells);
    if exists|i: int| 0 <= i < cells.len() && #[trigger] cells[i] is None {
        let i = choose|i: int| 0 <= i < cells.len() && #[trigger] cells[i] is None;
        lemma_present_contains(cells, i);
    }
}

proof fn lemma_all_present(cells: Seq<Option<Seq<char>>>)
    ensures
        profile::present(cells).len() <= cells.len(),
        profile::present(cells).len() < cells.len() ==> exists|i: int|
            0 <= i < cells.len() && #[trigger] cells[i] is None,
    decreases cells.len(),
{
    if cells.len() > 0 {
        let p = cells.drop_last();
        lemma_all_present(p);
        assert(p.push(cells.last()) =~= cells);
        profile::lemma_present_push(p, cells.last());
        if exists|i: int| 0 <= i < p.len() && #[trigger] p[i] is None {
            let i = choose|i: int| 0 <= i < p.len() && #[trigger] p[i] is None;
            assert(cells[i] is None);
        }
        assert(cells[cells.len() - 1] == cells.last());
    }
}

/// A schema is made of the key column and, in first-seen order, all the other
/// columns, each from what the files hold under its own header and with an
/// identifier that is told apart from those before it.
pub proof fn lemma_schema_columns(grids: Seq<Grid>, sources: Seq<Seq<char>>, opts: Options)
    ensures
        column_order(grids).len() == 0 ==> schema_of(grids, sources, opts) == Err::<
            SchemaFacts,
            Fault,
        >(Fault::Schema("no columns found in any input CSV"@)),
        column_order(grids).len() > 0 ==> match ident::key_of(
            column_order(grids),
            profile::text_opt(opts.key),
        ) {
            Err(fault) => schema_of(grids, sources, opts) == Err::<SchemaFacts, Fault>(fault),
            Ok(key) => schema_of(grids, sources, opts) matches Ok(schema) && {
                &&& schema.name == ident::ident_of(opts.schema@, Set::empty(), false)
                &&& schema.sources == sources
                &&& schema.key == column_of(
                    key,
                    ident::ident_of(key, Set::empty(), false),
                    observed(grids, key, opts.nulls()),
                    opts.enum_max as nat,
                    false,
                )
                &&& Seq::new(schema.attrs.len(), |i: int| schema.attrs[i].header) == column_order(
                    grids,
                ).filter(|h: Seq<char>| h != key)
                &&& forall|i: int|
                    0 <= i < schema.attrs.len() ==> #[trigger] schema.attrs[i] == column_of(
                        schema.attrs[i].header,
                        ident::ident_of(
                            schema.attrs[i].header,
                            schema_idents(schema).take(i + 1).to_set(),
                            true,
                        ),
                        observed(grids, schema.attrs[i].header, opts.nulls()),
                        opts.enum_max as nat,
                        true,
                    )
            },
        },
{
    let order = column_order(grids);
    if order.len() > 0 {
        if let Ok(key) = ident::key_of(order, profile::text_opt(opts.key)) {
            let schema = schema_of(grids, sources, opts)->Ok_0;
            let names = without(order, key);
            lemma_without_filter(order, key);
            assert(Seq::new(schema.attrs.len(), |i: int| schema.attrs[i].header) =~= names);
            let taken = Set::empty().insert(schema.key.ident);
            let idents = attr_idents(names, taken);
            lemma_attr_idents(names, taken);
            let all = schema_idents(schema);
            assert(all =~= seq![schema.key.ident] + idents);
            assert forall|i: int| 0 <= i < schema.attrs.len() implies schema.attrs[i].ident
                == ident::ident_of(names[i], all.take(i + 1).to_set(), true) by {
                lemma_attr_ident_at(names, taken, i);
                lemma_taken_set(schema.key.ident, idents.take(i));
                assert(all.take(i + 1) =~= seq![schema.key.ident] + idents.take(i));
            }
        }
    }
}

proof fn lemma_taken_set(key: Seq<char>, idents: Seq<Seq<char>>)
    ensures
        (seq![key] + idents).to_set() == Set::empty().insert(key).union(idents.to_set()),
    decreases idents.len(),
{
    if idents.len() == 0 {
        assert(seq![key] + idents =~= Seq::<Seq<char>>::empty().push(key));
        order::lemma_push_set(Seq::<Seq<char>>::empty(), key);
        assert(Seq::<Seq<char>>::empty().to_set() =~= Set::empty());
        assert(idents.to_set() =~= Set::empty());
        assert((seq![key] + idents).to_set() =~= Set::empty().insert(key).union(idents.to_set()));
    } else {
        let p = idents.drop_last();
        lemma_taken_set(key, p);
        assert(seq![key] + idents =~= (seq![key] + p).push(idents.last()));
        order::lemma_push_set(seq![key] + p, idents.last());
        assert(idents =~= p.push(idents.last()));
        order::lemma_push_set(p, idents.last());
        assert((seq![key] + idents).to_set() =~= Set::empty().insert(key).union(idents.to_set()));
    }
}

proof fn lemma_attr_ident_at(names: Seq<Seq<char>>, used: Set<Seq<char>>, i: int)
    requires
        0 <= i < names.len(),
        used.finite(),
    ensures
        attr_idents(names, used)[i] == ident::ident_of(
            names[i],
            used.union(attr_idents(names, used).take(i).to_set()),
            true,
        ),
    decreases names.len(),
{
    let front = attr_idents(names.drop_last(), used);
    lemma_attr_idents(names.drop_last(), used);
    let all = attr_idents(names, used);
    if i < names.len() - 1 {
        lemma_attr_ident_at(names.drop_last(), used, i);
        assert(all[i] == front[i]);
        assert(all.take(i) =~= front.take(i));
    } else {
        assert(all.take(i) =~= front);
    }
}

proof fn lemma_without_filter(order: Seq<Seq<char>>, key: Seq<char>)
    ensures
        without(order, key) == order.filter(|h: Seq<char>| h != key),
    decreases order.len(),
{
    reveal(Seq::filter);
    if order.len() > 0 {
        lemma_without_filter(order.drop_last(), key);
    }
}

/// The schema of some files is that of their tables and names, in order.
pub proof fn lemma_inferred(files: Seq<SourceFile>, opts: Options)
    ensures
        match scanned(files, opts.strict) {
            Ok(grids) => inferred(files, opts) == schema_of(
                grids,
                Seq::new(files.len(), |i: int| files[i].entry.source@),
                opts,
            ),
            Err(fault) => inferred(files, opts) == Err::<SchemaFacts, Fault>(fault),
        },
{
    assert(source_names(files) =~= Seq::new(files.len(), |i: int| files[i].entry.source@));
}

} // verus!
