//! The months as the files describe them, and how each differs from the one
//! before it.

use crate::error::{Error, Fault, Result};
use crate::infer;
use crate::infer::{ColumnFacts, Schema, SchemaFacts, SourceFile};
use crate::order;
use crate::order::{TextMap, TextSet};
use crate::profile;
use crate::table;
use crate::table::{Grid, Table};
use crate::text;
use crate::util;
use vstd::prelude::*;

verus! {

/// The cells of an account in one month, aligned to the schema's attributes;
/// a missing one is `None`.
pub type Row = Vec<Option<String>>;

/// One month's data, keyed by account natural key.
pub struct Snapshot {
    pub source: String,
    pub at: String,
    pub values: TextMap<Row>,
}

/// The accounts of a month, each with its cells.
pub type Accounts = Map<Seq<char>, Seq<Option<Seq<char>>>>;

/// What a [`Snapshot`] holds.
#[verifier::ext_equal]
pub struct Month {
    pub source: Seq<char>,
    pub at: Seq<char>,
    pub values: Accounts,
}

pub open spec fn cells_view(row: Seq<Option<String>>) -> Seq<Option<Seq<char>>> {
    Seq::new(row.len(), |a: int| profile::text_opt(row[a]))
}

pub open spec fn accounts_view(values: Map<Seq<char>, Row>) -> Accounts {
    values.map_values(|row: Row| cells_view(row@))
}

impl View for Snapshot {
    type V = Month;

    open spec fn view(&self) -> Month {
        Month { source: self.source@, at: self.at@, values: accounts_view(self.values@) }
    }
}

impl Snapshot {
    /// Every account has one cell for each of `n_attr` attributes.
    pub open spec fn wf(&self, n_attr: nat) -> bool {
        &&& self.values.wf()
        &&& aligned(self@, n_attr)
    }
}

/// Whether every account of a month has `n_attr` cells.
pub open spec fn aligned(m: Month, n_attr: nat) -> bool {
    forall|k: Seq<char>| #[trigger]
        m.values.contains_key(k) ==> m.values[k].len() == n_attr
}

pub open spec fn months(snaps: Seq<Snapshot>) -> Seq<Month> {
    Seq::new(snaps.len(), |i: int| snaps[i]@)
}

pub open spec fn all_wf(snaps: Seq<Snapshot>, n_attr: nat) -> bool {
    forall|i: int| 0 <= i < snaps.len() ==> (#[trigger] snaps[i]).wf(n_attr)
}

/// Where a header first stands in a header row.
pub open spec fn position(headers: Seq<Seq<char>>, h: Seq<char>) -> Option<int>
    decreases headers.len(),
{
    if headers.len() == 0 {
        None
    } else {
        match position(headers.drop_last(), h) {
            Some(i) => Some(i),
            None => if headers.last() == h {
                Some(headers.len() - 1)
            } else {
                None
            },
        }
    }
}

/// The cell of a row under a header; an empty one, where the file has no such
/// column or the row is too short.
pub open spec fn cell_under(
    headers: Seq<Seq<char>>,
    row: Seq<Seq<char>>,
    h: Seq<char>,
) -> Seq<char> {
    match position(headers, h) {
        Some(i) => table::cell_at(row, i),
        None => seq![],
    }
}

/// An account's cells, aligned to the attributes.
pub open spec fn account_cells(
    attrs: Seq<ColumnFacts>,
    headers: Seq<Seq<char>>,
    row: Seq<Seq<char>>,
    null_tokens: Seq<Seq<char>>,
) -> Seq<Option<Seq<char>>> {
    Seq::new(
        attrs.len(),
        |a: int| util::cell(cell_under(headers, row, attrs[a].header), null_tokens),
    )
}

/// What is wrong with a row without an account key. Rows are numbered as
/// lines are, the header row being the first.
pub open spec fn blank_key(source: Seq<char>, row: nat, key: Seq<char>) -> Fault {
    Fault::Data {
        source,
        message: "row "@ + text::decimal(row + 2) + ": empty key column `"@ + key + "`"@,
    }
}

/// The accounts that some rows describe. A row without a key is a fault in
/// strict mode and left out otherwise; of two rows with one key the later
/// counts.
pub open spec fn accounts_of(
    schema: SchemaFacts,
    source: Seq<char>,
    headers: Seq<Seq<char>>,
    rows: Seq<Seq<Seq<char>>>,
    null_tokens: Seq<Seq<char>>,
    strict: bool,
) -> std::result::Result<Accounts, Fault>
    decreases rows.len(),
{
    if rows.len() == 0 {
        Ok(Map::empty())
    } else {
        match accounts_of(schema, source, headers, rows.drop_last(), null_tokens, strict) {
            Ok(accounts) => {
                let key = cell_under(headers, rows.last(), schema.key.header);
                if !util::null(key, null_tokens) {
                    Ok(
                        accounts.insert(
                            key,
                            account_cells(schema.attrs, headers, rows.last(), null_tokens),
                        ),
                    )
                } else if strict {
                    Err(blank_key(source, (rows.len() - 1) as nat, schema.key.header))
                } else {
                    Ok(accounts)
                }
            },
            Err(fault) => Err(fault),
        }
    }
}

/// The month that a file describes, or what is wrong with it.
pub open spec fn month_of(
    schema: SchemaFacts,
    source: Seq<char>,
    at: Seq<char>,
    g: Grid,
    null_tokens: Seq<Seq<char>>,
    strict: bool,
) -> std::result::Result<Month, Fault> {
    match accounts_of(schema, source, g.headers, g.rows, null_tokens, strict) {
        Ok(values) => match g.fault {
            Some(flaw) => Err(infer::row_fault(source, g.rows.len(), flaw)),
            None => Ok(Month { source, at, values }),
        },
        Err(fault) => Err(fault),
    }
}

/// Where a header first stands.
pub fn find_header(headers: &[String], h: &str) -> (out: Option<usize>)
    ensures
        match out {
            Some(i) => position(text::texts(headers@), h@) == Some(i as int) && i < headers@.len(),
            None => position(text::texts(headers@), h@) is None,
        },
{
    let mut found: Option<usize> = None;
    for i in 0..headers.len()
        invariant
            match found {
                Some(k) => k < headers@.len() && position(text::texts(headers@).take(i as int), h@)
                    == Some(k as int),
                None => position(text::texts(headers@).take(i as int), h@) is None,
            },
    {
        assert(text::texts(headers@).take(i + 1).drop_last() =~= text::texts(headers@).take(
            i as int,
        ));
        if found.is_none() && text::same(headers[i].as_str(), h) {
            found = Some(i);
        }
    }
    assert(text::texts(headers@).take(headers@.len() as int) =~= text::texts(headers@));
    found
}

/// The cell at a position that a header may lack.
pub fn cell_where(row: &Vec<String>, at: Option<usize>) -> (out: &str)
    ensures
        out@ == match at {
            Some(i) => table::cell_at(text::texts(row@), i as int),
            None => seq![],
        },
{
    match at {
        Some(i) => infer::cell_text(row, i),
        None => {
            proof {
                reveal_strlit("");
            }
            assert(""@ =~= seq![]);
            ""
        },
    }
}

/// The error for a row without an account key.
pub fn blank_key_error(source: &str, row: usize, key: &str) -> (out: Error)
    ensures
        out@ == blank_key(source@, row as nat, key@),
{
    let mut message = "row ".to_owned();
    message.append(text::decimal_text(row as u128 + 2).as_str());
    message.append(": empty key column `");
    message.append(key);
    message.append("`");
    Error::Data { source: source.to_owned(), message }
}

/// The cells of a row at some positions, the missing ones as `None`.
pub fn cells_at(row: &Vec<String>, at: &[Option<usize>], null_tokens: &[String]) -> (out: Row)
    ensures
        cells_view(out@) == Seq::new(
            at@.len(),
            |a: int|
                util::cell(
                    match at@[a] {
                        Some(i) => table::cell_at(text::texts(row@), i as int),
                        None => seq![],
                    },
                    text::texts(null_tokens@),
                ),
        ),
{
    let mut out: Row = Vec::new();
    for a in 0..at.len()
        invariant
            out@.len() == a,
            forall|j: int|
                0 <= j < a ==> profile::text_opt(#[trigger] out@[j]) == util::cell(
                    match at@[j] {
                        Some(i) => table::cell_at(text::texts(row@), i as int),
                        None => seq![],
                    },
                    text::texts(null_tokens@),
                ),
    {
        let raw = cell_where(row, at[a]);
        if util::is_null(raw, null_tokens) {
            out.push(None);
        } else {
            out.push(Some(raw.to_owned()));
        }
    }
    out
}

proof fn lemma_accounts_prefix(
    schema: SchemaFacts,
    source: Seq<char>,
    headers: Seq<Seq<char>>,
    rows: Seq<Seq<Seq<char>>>,
    null_tokens: Seq<Seq<char>>,
    strict: bool,
    n: int,
)
    requires
        0 <= n <= rows.len(),
        accounts_of(schema, source, headers, rows.take(n), null_tokens, strict) is Err,
    ensures
        accounts_of(schema, source, headers, rows, null_tokens, strict) == accounts_of(
            schema,
            source,
            headers,
            rows.take(n),
            null_tokens,
            strict,
        ),
    decreases rows.len() - n,
{
    if n < rows.len() {
        assert(rows.take(n + 1).drop_last() =~= rows.take(n));
        lemma_accounts_prefix(schema, source, headers, rows, null_tokens, strict, n + 1);
    } else {
        assert(rows.take(n) =~= rows);
    }
}

/// Read one month out of a file.
pub fn read_snapshot(
    schema: &Schema,
    source: &str,
    at: &str,
    t: &Table,
    null_tokens: &[String],
    strict: bool,
) -> (out: Result<Snapshot>)
    ensures
        match out {
            Ok(snap) => {
                &&& month_of(schema@, source@, at@, t@, text::texts(null_tokens@), strict) == Ok::<
                    Month,
                    Fault,
                >(snap@)
                &&& snap.wf(schema@.attrs.len())
            },
            Err(e) => month_of(schema@, source@, at@, t@, text::texts(null_tokens@), strict)
                == Err::<Month, Fault>(e@),
        },
{
    let ghost tokens = text::texts(null_tokens@);
    let ghost headers = t@.headers;
    let ghost rows = t@.rows;
    let key_idx = find_header(t.headers.as_slice(), schema.key.header.as_str());
    let mut attr_idx: Vec<Option<usize>> = Vec::new();
    for a in 0..schema.attrs.len()
        invariant
            attr_idx@.len() == a,
            headers == t@.headers,
            forall|j: int|
                0 <= j < a ==> (match #[trigger] attr_idx@[j] {
                    Some(i) => position(headers, schema@.attrs[j].header) == Some(i as int),
                    None => position(headers, schema@.attrs[j].header) is None,
                }),
    {
        attr_idx.push(find_header(t.headers.as_slice(), schema.attrs[a].header.as_str()));
    }

    let mut values: TextMap<Row> = TextMap::new();
    assert(accounts_view(values@) =~= Map::empty());
    for r in 0..t.rows.len()
        invariant
            headers == t@.headers,
            rows == t@.rows,
            tokens == text::texts(null_tokens@),
            match key_idx {
                Some(i) => position(headers, schema@.key.header) == Some(i as int),
                None => position(headers, schema@.key.header) is None,
            },
            attr_idx@.len() == schema@.attrs.len(),
            forall|j: int|
                0 <= j < attr_idx@.len() ==> (match #[trigger] attr_idx@[j] {
                    Some(i) => position(headers, schema@.attrs[j].header) == Some(i as int),
                    None => position(headers, schema@.attrs[j].header) is None,
                }),
            values.wf(),
            accounts_of(schema@, source@, headers, rows.take(r as int), tokens, strict) == Ok::<
                Accounts,
                Fault,
            >(accounts_view(values@)),
            forall|k: Seq<char>| #[trigger]
                values@.contains_key(k) ==> values@[k]@.len() == schema@.attrs.len(),
    {
        let row = &t.rows[r];
        proof {
            assert(rows.take(r + 1).drop_last() =~= rows.take(r as int));
            assert(rows.take(r + 1).last() == text::texts(row@));
        }
        let key = cell_where(row, key_idx);
        if util::is_null(key, null_tokens) {
            if strict {
                proof {
                    lemma_accounts_prefix(schema@, source@, headers, rows, tokens, strict, r + 1);
                }
                return Err(blank_key_error(source, r, schema.key.header.as_str()));
            }
        } else {
            let cells = cells_at(row, attr_idx.as_slice(), null_tokens);
            let ghost was = values@;
            proof {
                assert(cells_view(cells@) =~= account_cells(
                    schema@.attrs,
                    headers,
                    text::texts(row@),
                    tokens,
                ));
                assert(accounts_view(was.insert(key@, cells)) =~= accounts_view(was).insert(
                    key@,
                    cells_view(cells@),
                ));
                assert(cells@.len() == cells_view(cells@).len());
            }
            values.insert(key, cells);
        }
    }
    assert(rows.take(rows.len() as int) =~= rows);
    if let Some(fault) = &t.fault {
        return Err(infer::row_error(source, t.rows.len(), fault));
    }
    Ok(Snapshot { source: source.to_owned(), at: at.to_owned(), values })
}

/// The months that the files describe, or what is wrong with the first file
/// that describes none.
pub open spec fn months_of(
    schema: SchemaFacts,
    files: Seq<SourceFile>,
    null_tokens: Seq<Seq<char>>,
    strict: bool,
) -> std::result::Result<Seq<Month>, Fault>
    decreases files.len(),
{
    if files.len() == 0 {
        Ok(seq![])
    } else {
        match months_of(schema, files.drop_last(), null_tokens, strict) {
            Ok(before) => match table::grid_of(files.last().bytes@, !strict) {
                Ok(g) => match month_of(
                    schema,
                    files.last().entry.source@,
                    files.last().entry.at@,
                    g,
                    null_tokens,
                    strict,
                ) {
                    Ok(m) => Ok(before.push(m)),
                    Err(fault) => Err(fault),
                },
                Err(fault) => Err(fault),
            },
            Err(fault) => Err(fault),
        }
    }
}

proof fn lemma_months_prefix(
    schema: SchemaFacts,
    files: Seq<SourceFile>,
    null_tokens: Seq<Seq<char>>,
    strict: bool,
    n: int,
)
    requires
        0 <= n <= files.len(),
        months_of(schema, files.take(n), null_tokens, strict) is Err,
    ensures
        months_of(schema, files, null_tokens, strict) == months_of(
            schema,
            files.take(n),
            null_tokens,
            strict,
        ),
    decreases files.len() - n,
{
    if n < files.len() {
        assert(files.take(n + 1).drop_last() =~= files.take(n));
        lemma_months_prefix(schema, files, null_tokens, strict, n + 1);
    } else {
        assert(files.take(n) =~= files);
    }
}

/// Read the months out of the files.
pub fn read_snapshots(
    schema: &Schema,
    files: &[SourceFile],
    null_tokens: &[String],
    strict: bool,
) -> (out: Result<Vec<Snapshot>>)
    ensures
        match out {
            Ok(snaps) => {
                &&& months_of(schema@, files@, text::texts(null_tokens@), strict) == Ok::<
                    Seq<Month>,
                    Fault,
                >(months(snaps@))
                &&& all_wf(snaps@, schema@.attrs.len())
            },
            Err(e) => months_of(schema@, files@, text::texts(null_tokens@), strict) == Err::<
                Seq<Month>,
                Fault,
            >(e@),
        },
{
    let ghost tokens = text::texts(null_tokens@);
    let mut snaps: Vec<Snapshot> = Vec::new();
    assert(months(snaps@) =~= seq![]);
    for i in 0..files.len()
        invariant
            tokens == text::texts(null_tokens@),
            months_of(schema@, files@.take(i as int), tokens, strict) == Ok::<Seq<Month>, Fault>(
                months(snaps@),
            ),
            all_wf(snaps@, schema@.attrs.len()),
    {
        let file = &files[i];
        proof {
            assert(files@.take(i + 1).drop_last() =~= files@.take(i as int));
            assert(files@.take(i + 1).last() == file);
        }
        let t = match table::read_table(file.bytes.as_slice(), !strict) {
            Ok(t) => t,
            Err(e) => {
                proof {
                    lemma_months_prefix(schema@, files@, tokens, strict, i + 1);
                }
                return Err(e);
            },
        };
        let read = read_snapshot(
            schema,
            file.entry.source.as_str(),
            file.entry.at.as_str(),
            &t,
            null_tokens,
            strict,
        );
        match read {
            Ok(snap) => {
                let ghost was = snaps@;
                snaps.push(snap);
                assert(months(snaps@) =~= months(was).push(snap@));
            },
            Err(e) => {
                proof {
                    lemma_months_prefix(schema@, files@, tokens, strict, i + 1);
                }
                return Err(e);
            },
        }
    }
    assert(files@.take(files@.len() as int) =~= files@);
    Ok(snaps)
}

/// A single observed change: the account key and its old and new rendered
/// cell.
pub struct Change {
    pub key: String,
    pub old_cell: String,
    pub new_cell: String,
}

/// What a [`Change`] says.
#[verifier::ext_equal]
pub struct ChangeFacts {
    pub key: Seq<char>,
    pub old_cell: Seq<char>,
    pub new_cell: Seq<char>,
}

impl View for Change {
    type V = ChangeFacts;

    open spec fn view(&self) -> ChangeFacts {
        ChangeFacts { key: self.key@, old_cell: self.old_cell@, new_cell: self.new_cell@ }
    }
}

pub open spec fn changes_view(v: Seq<Change>) -> Seq<ChangeFacts> {
    Seq::new(v.len(), |i: int| v[i]@)
}

/// A possibly missing cell as it is shown.
pub open spec fn rendered(cell: Option<Seq<char>>) -> Seq<char> {
    match cell {
        Some(v) => v,
        None => "∅"@,
    }
}

/// Render a possibly-null cell for the transitions listing.
pub fn render_cell(cell: Option<&String>) -> (out: String)
    ensures
        out@ == rendered(
            match cell {
                Some(v) => Some(v@),
                None => None,
            },
        ),
{
    match cell {
        Some(v) => v.clone(),
        None => "∅".to_owned(),
    }
}

/// The accounts of both months whose cell of an attribute differs.
pub open spec fn changed_keys(prev: Accounts, cur: Accounts, a: int) -> Set<Seq<char>> {
    prev.dom().intersect(cur.dom()).filter(|k: Seq<char>| prev[k][a] != cur[k][a])
}

/// The accounts of both months of which any cell differs.
pub open spec fn changed_accounts(prev: Accounts, cur: Accounts) -> Set<Seq<char>> {
    prev.dom().intersect(cur.dom()).filter(|k: Seq<char>| prev[k] != cur[k])
}

pub open spec fn change_at(
    prev: Accounts,
    cur: Accounts,
    a: int,
    key: Seq<char>,
) -> ChangeFacts {
    ChangeFacts { key, old_cell: rendered(prev[key][a]), new_cell: rendered(cur[key][a]) }
}

/// The changes of an attribute between two months, by account key.
pub open spec fn changes_of(prev: Accounts, cur: Accounts, a: int) -> Seq<ChangeFacts> {
    let keys = order::ordered(changed_keys(prev, cur, a));
    Seq::new(keys.len(), |i: int| change_at(prev, cur, a, keys[i]))
}

/// How many cells differ, the first `n_attr` attributes taken together.
pub open spec fn changed_cells(prev: Accounts, cur: Accounts, n_attr: nat) -> nat
    decreases n_attr,
{
    if n_attr == 0 {
        0
    } else {
        changed_cells(prev, cur, (n_attr - 1) as nat) + changed_keys(prev, cur, n_attr - 1).len()
    }
}

/// How a month differs from the one before it.
pub struct Diff {
    pub added: usize,
    pub removed: usize,
    pub changed_accounts: usize,
    pub changed_cells: u128,
    /// The changes of each attribute, by account key.
    pub changes: Vec<Vec<Change>>,
}

/// What a [`Diff`] says.
#[verifier::ext_equal]
pub struct DiffFacts {
    pub added: nat,
    pub removed: nat,
    pub changed_accounts: nat,
    pub changed_cells: nat,
    pub changes: Seq<Seq<ChangeFacts>>,
}

impl View for Diff {
    type V = DiffFacts;

    open spec fn view(&self) -> DiffFacts {
        DiffFacts {
            added: self.added as nat,
            removed: self.removed as nat,
            changed_accounts: self.changed_accounts as nat,
            changed_cells: self.changed_cells as nat,
            changes: Seq::new(self.changes@.len(), |a: int| changes_view(self.changes@[a]@)),
        }
    }
}

/// How one month differs from another.
pub open spec fn diff_of(prev: Accounts, cur: Accounts, n_attr: nat) -> DiffFacts {
    DiffFacts {
        added: cur.dom().difference(prev.dom()).len(),
        removed: prev.dom().difference(cur.dom()).len(),
        changed_accounts: changed_accounts(prev, cur).len(),
        changed_cells: changed_cells(prev, cur, n_attr),
        changes: Seq::new(n_attr, |a: int| changes_of(prev, cur, a)),
    }
}

/// How many keys of the first map the second lacks.
fn count_absent(a: &TextMap<Row>, b: &TextMap<Row>) -> (out: usize)
    requires
        a.wf(),
        b.wf(),
    ensures
        out == a@.dom().difference(b@.dom()).len(),
{
    let ours = TextSet { items: text::copies(a.keys.as_slice()) };
    let theirs = TextSet { items: text::copies(b.keys.as_slice()) };
    proof {
        a.lemma_entries();
        b.lemma_entries();
        order::lemma_ordered_exists(ours@.difference(theirs@));
    }
    ours.difference(&theirs).len()
}

/// Whether two cells hold the same.
pub fn same_cell(a: &Option<String>, b: &Option<String>) -> (out: bool)
    ensures
        out == (profile::text_opt(*a) == profile::text_opt(*b)),
{
    match (a, b) {
        (Some(x), Some(y)) => text::same(x.as_str(), y.as_str()),
        (None, None) => true,
        _ => false,
    }
}

/// Whether an account was there before with another cell of an attribute.
spec fn changed_from(prev: Accounts, cur: Accounts, a: int) -> spec_fn(Seq<char>) -> bool {
    |k: Seq<char>| prev.contains_key(k) && prev[k][a] != cur[k][a]
}

spec fn changes_at(
    prev: Accounts,
    cur: Accounts,
    a: int,
    keys: Seq<Seq<char>>,
) -> Seq<ChangeFacts> {
    Seq::new(keys.len(), |i: int| change_at(prev, cur, a, keys[i]))
}

/// The changes of one attribute between two months.
fn attr_changes(prev: &Snapshot, cur: &Snapshot, a: usize, Ghost(n_attr): Ghost<nat>) -> (out: Vec<
    Change,
>)
    requires
        prev.wf(n_attr),
        cur.wf(n_attr),
        a < n_attr,
    ensures
        changes_view(out@) == changes_of(prev@.values, cur@.values, a as int),
{
    let ghost p = prev@.values;
    let ghost c = cur@.values;
    let ghost moved = changed_from(p, c, a as int);
    let ghost q = text::texts(cur.values.keys@);
    proof {
        cur.values.lemma_entries();
        reveal(Seq::filter);
    }
    let mut out: Vec<Change> = Vec::new();
    assert(changes_view(out@) =~= changes_at(p, c, a as int, q.take(0).filter(moved)));
    for i in 0..cur.values.keys.len()
        invariant
            prev.wf(n_attr),
            cur.wf(n_attr),
            a < n_attr,
            p == prev@.values,
            c == cur@.values,
            moved == changed_from(p, c, a as int),
            q == text::texts(cur.values.keys@),
            forall|j: int|
                0 <= j < cur.values.keys@.len() ==> cur.values@.contains_key(
                    #[trigger] cur.values.keys@[j]@,
                ) && cur.values@[cur.values.keys@[j]@] == cur.values.values@[j],
            changes_view(out@) == changes_at(p, c, a as int, q.take(i as int).filter(moved)),
    {
        let key = &cur.values.keys[i];
        let ghost was = out@;
        proof {
            reveal(Seq::filter);
            assert(q.take(i + 1).drop_last() =~= q.take(i as int));
            assert(q.take(i + 1).last() == key@);
            assert(c.contains_key(key@));
        }
        if let Some(prev_row) = prev.values.get(key.as_str()) {
            let cur_row = &cur.values.values[i];
            assert(p.contains_key(key@));
            assert(p[key@] == cells_view(prev_row@) && c[key@] == cells_view(cur_row@));
            assert(p[key@].len() == n_attr && c[key@].len() == n_attr);
            if !same_cell(&prev_row[a], &cur_row[a]) {
                let change = Change {
                    key: key.clone(),
                    old_cell: render_cell(prev_row[a].as_ref()),
                    new_cell: render_cell(cur_row[a].as_ref()),
                };
                out.push(change);
                assert(change@ == change_at(p, c, a as int, key@));
                assert(changes_view(out@) =~= changes_view(was).push(change@));
                assert(changes_view(out@) =~= changes_at(
                    p,
                    c,
                    a as int,
                    q.take(i as int).filter(moved).push(key@),
                ));
            }
        } else {
            assert(!p.contains_key(key@));
        }
    }
    proof {
        assert(q.take(q.len() as int) =~= q);
        order::lemma_ordered_filter(q, moved);
        assert(c.dom() =~= cur.values@.dom());
        assert(q.to_set().filter(moved) =~= changed_keys(p, c, a as int));
    }
    out
}

proof fn lemma_row_differs(
    prev: Accounts,
    cur: Accounts,
    n_attr: nat,
    k: Seq<char>,
)
    requires
        prev.contains_key(k),
        cur.contains_key(k),
        prev[k].len() == n_attr,
        cur[k].len() == n_attr,
    ensures
        changed_accounts(prev, cur).contains(k) <==> exists|a: int|
            0 <= a < n_attr && #[trigger] changed_keys(prev, cur, a).contains(k),
{
    if prev[k] != cur[k] {
        if forall|a: int| 0 <= a < n_attr ==> prev[k][a] == cur[k][a] {
            assert(prev[k] =~= cur[k]);
        }
        let a = choose|a: int| 0 <= a < n_attr && prev[k][a] != cur[k][a];
        assert(changed_keys(prev, cur, a).contains(k));
    }
}

/// The keys of some changes.
spec fn change_keys(v: Seq<ChangeFacts>) -> Seq<Seq<char>> {
    Seq::new(v.len(), |i: int| v[i].key)
}

/// Collect the accounts of some changes.
fn add_keys(accounts: &mut TextSet, list: &Vec<Change>)
    requires
        old(accounts).wf(),
    ensures
        final(accounts).wf(),
        final(accounts)@ == old(accounts)@.union(change_keys(changes_view(list@)).to_set()),
{
    let ghost keys = change_keys(changes_view(list@));
    let ghost known = accounts@;
    assert(known.union(keys.take(0).to_set()) =~= known);
    for j in 0..list.len()
        invariant
            keys == change_keys(changes_view(list@)),
            accounts.wf(),
            accounts@ == known.union(keys.take(j as int).to_set()),
    {
        accounts.insert(list[j].key.as_str());
        proof {
            assert(keys.take(j + 1) =~= keys.take(j as int).push(keys[j as int]));
            order::lemma_push_set(keys.take(j as int), keys[j as int]);
            assert(accounts@ =~= known.union(keys.take(j + 1).to_set()));
        }
    }
    assert(keys.take(keys.len() as int) =~= keys);
}

/// Compare a month with the one before it.
pub fn diff(prev: &Snapshot, cur: &Snapshot, n_attr: usize) -> (out: Diff)
    requires
        prev.wf(n_attr as nat),
        cur.wf(n_attr as nat),
    ensures
        out@ == diff_of(prev@.values, cur@.values, n_attr as nat),
{
    let ghost p = prev@.values;
    let ghost c = cur@.values;
    proof {
        prev.values.lemma_entries();
        cur.values.lemma_entries();
        assert(p.dom() =~= prev.values@.dom());
        assert(c.dom() =~= cur.values@.dom());
    }
    let added = count_absent(&cur.values, &prev.values);
    let removed = count_absent(&prev.values, &cur.values);
    let mut accounts = TextSet::new();
    let mut cells: u128 = 0;
    let mut changes: Vec<Vec<Change>> = Vec::new();
    for a in 0..n_attr
        invariant
            prev.wf(n_attr as nat),
            cur.wf(n_attr as nat),
            p == prev@.values,
            c == cur@.values,
            p.dom().finite(),
            accounts.wf(),
            accounts@ == changed_within(p, c, a as nat),
            cells == changed_cells(p, c, a as nat),
            cells <= a * usize::MAX,
            changes@.len() == a,
            forall|b: int|
                0 <= b < a ==> changes_view(#[trigger] changes@[b]@) == changes_of(p, c, b),
    {
        let list = attr_changes(prev, cur, a, Ghost(n_attr as nat));
        proof {
            lemma_changes_exact(p, c, a as int);
            assert(change_keys(changes_view(list@)).to_set() == changed_keys(p, c, a as int));
            assert((a + 1) * usize::MAX == a * usize::MAX + usize::MAX) by (nonlinear_arith);
            assert((a + 1) * usize::MAX <= usize::MAX * usize::MAX) by (nonlinear_arith)
                requires
                    a < usize::MAX,
            ;
            let m = usize::MAX as u64;
            assert(m * m <= 0xffff_ffff_ffff_ffff_ffff_ffff_ffff_ffff) by (nonlinear_arith)
                requires
                    m <= 0xffff_ffff_ffff_ffff,
            ;
        }
        add_keys(&mut accounts, &list);
        cells = cells + list.len() as u128;
        changes.push(list);
    }
    proof {
        lemma_changed_within(prev@, cur@, n_attr as nat);
    }
    let out = Diff {
        added,
        removed,
        changed_accounts: accounts.len(),
        changed_cells: cells,
        changes,
    };
    assert(out@.changes =~= diff_of(p, c, n_attr as nat).changes);
    out
}

/// The accounts that change any attribute are those whose cells differ.
proof fn lemma_changed_within(prev: Month, cur: Month, n_attr: nat)
    requires
        aligned(prev, n_attr),
        aligned(cur, n_attr),
    ensures
        changed_within(prev.values, cur.values, n_attr) == changed_accounts(
            prev.values,
            cur.values,
        ),
{
    let p = prev.values;
    let c = cur.values;
    let all = changed_accounts(p, c);
    let some = changed_within(p, c, n_attr);
    assert forall|k: Seq<char>| all.contains(k) == some.contains(k) by {
        if p.contains_key(k) && c.contains_key(k) {
            lemma_row_differs(p, c, n_attr, k);
        }
        lemma_within(p, c, n_attr, k);
    }
    assert(all =~= some);
}

/// The months of a step balance: what is left of the earlier month after the
/// removed accounts, and what is new, make up the later one.
pub proof fn lemma_step_balance(prev: Accounts, cur: Accounts, n_attr: nat)
    requires
        prev.dom().finite(),
        cur.dom().finite(),
    ensures
        prev.dom().len() + diff_of(prev, cur, n_attr).added == cur.dom().len() + diff_of(
            prev,
            cur,
            n_attr,
        ).removed,
{
    let both = prev.dom().intersect(cur.dom());
    let gone = prev.dom().difference(cur.dom());
    let fresh = cur.dom().difference(prev.dom());
    assert(prev.dom() =~= both.union(gone));
    assert(cur.dom() =~= both.union(fresh));
    assert(both.disjoint(gone));
    assert(both.disjoint(fresh));
    vstd::set_lib::lemma_set_disjoint_lens(both, gone);
    vstd::set_lib::lemma_set_disjoint_lens(both, fresh);
}

/// A month that repeats the one before it has nothing to store: no account
/// comes, goes or changes, and no change is listed.
pub proof fn lemma_repeated_month(accounts: Accounts, n_attr: nat)
    ensures
        ({
            let d = diff_of(accounts, accounts, n_attr);
            &&& d.added == 0
            &&& d.removed == 0
            &&& d.changed_accounts == 0
            &&& d.changed_cells == 0
            &&& forall|a: int| 0 <= a < n_attr ==> (#[trigger] d.changes[a]).len() == 0
        }),
    decreases n_attr,
{
    let d = diff_of(accounts, accounts, n_attr);
    assert(accounts.dom().difference(accounts.dom()) =~= Set::empty());
    assert(changed_accounts(accounts, accounts) =~= Set::empty());
    assert forall|a: int| 0 <= a < n_attr implies (#[trigger] d.changes[a]).len() == 0 by {
        assert(changed_keys(accounts, accounts, a) =~= Set::empty());
        order::lemma_ordered_exists(Set::empty());
    }
    if n_attr > 0 {
        lemma_repeated_month(accounts, (n_attr - 1) as nat);
        assert(changed_keys(accounts, accounts, n_attr - 1) =~= Set::empty());
    }
}

/// The changes that a step lists for an attribute are exactly the accounts of
/// both months whose cell differs, each once and in key order.
pub proof fn lemma_changes_exact(prev: Accounts, cur: Accounts, a: int)
    requires
        prev.dom().finite(),
    ensures
        ({
            let list = changes_of(prev, cur, a);
            let keys = Seq::new(list.len(), |i: int| list[i].key);
            &&& order::ascending(keys)
            &&& keys.to_set() == changed_keys(prev, cur, a)
            &&& list.len() == changed_keys(prev, cur, a).len()
        }),
{
    let all = changed_keys(prev, cur, a);
    assert(all.subset_of(prev.dom()));
    vstd::set_lib::lemma_len_subset(all, prev.dom());
    order::lemma_ordered_exists(all);
    let list = changes_of(prev, cur, a);
    assert(Seq::new(list.len(), |i: int| list[i].key) =~= order::ordered(all));
}

/// Every changed account has at least one changed cell, so a step changes no
/// more accounts than cells, and it changes some of the one exactly where it
/// changes some of the other.
pub proof fn lemma_accounts_and_cells(prev: Month, cur: Month, n_attr: nat)
    requires
        prev.values.dom().finite(),
        aligned(prev, n_attr),
        aligned(cur, n_attr),
    ensures
        changed_accounts(prev.values, cur.values).len() <= changed_cells(
            prev.values,
            cur.values,
            n_attr,
        ),
        changed_accounts(prev.values, cur.values).len() == 0 <==> changed_cells(
            prev.values,
            cur.values,
            n_attr,
        ) == 0,
{
    lemma_cells_cover(prev.values, cur.values, n_attr);
    lemma_changed_within(prev, cur, n_attr);
}

/// The accounts that change any of the first `n` attributes.
spec fn changed_within(prev: Accounts, cur: Accounts, n: nat) -> Set<Seq<char>>
    decreases n,
{
    if n == 0 {
        Set::empty()
    } else {
        changed_within(prev, cur, (n - 1) as nat).union(changed_keys(prev, cur, n - 1))
    }
}

proof fn lemma_within(prev: Accounts, cur: Accounts, n: nat, k: Seq<char>)
    ensures
        changed_within(prev, cur, n).contains(k) <==> exists|a: int|
            0 <= a < n && #[trigger] changed_keys(prev, cur, a).contains(k),
    decreases n,
{
    if n > 0 {
        lemma_within(prev, cur, (n - 1) as nat, k);
        if exists|a: int| 0 <= a < n - 1 && #[trigger] changed_keys(prev, cur, a).contains(k) {
            let a = choose|a: int|
                0 <= a < n - 1 && #[trigger] changed_keys(prev, cur, a).contains(k);
            assert(changed_keys(prev, cur, a).contains(k));
        }
        if changed_keys(prev, cur, n - 1).contains(k) {
            assert(changed_keys(prev, cur, n - 1).contains(k));
        }
    }
}

proof fn lemma_cells_cover(prev: Accounts, cur: Accounts, n: nat)
    requires
        prev.dom().finite(),
    ensures
        changed_within(prev, cur, n).finite(),
        changed_within(prev, cur, n).len() <= changed_cells(prev, cur, n),
        changed_cells(prev, cur, n) > 0 ==> changed_within(prev, cur, n).len() > 0,
    decreases n,
{
    if n > 0 {
        lemma_cells_cover(prev, cur, (n - 1) as nat);
        let front = changed_within(prev, cur, (n - 1) as nat);
        let more = changed_keys(prev, cur, n - 1);
        assert(more.subset_of(prev.dom()));
        vstd::set_lib::lemma_len_subset(more, prev.dom());
        vstd::set_lib::lemma_len_union(front, more);
        vstd::set_lib::lemma_len_union_ind(front, more);
    }
}

/// The accounts of a month are those that its rows name, and the last row of
/// an account is what the month holds of it.
pub proof fn lemma_month_holds_rows(
    schema: SchemaFacts,
    source: Seq<char>,
    headers: Seq<Seq<char>>,
    rows: Seq<Seq<Seq<char>>>,
    null_tokens: Seq<Seq<char>>,
    strict: bool,
    k: Seq<char>,
)
    ensures
        accounts_of(schema, source, headers, rows, null_tokens, strict) matches Ok(accounts) ==> (
        accounts.contains_key(k) <==> exists|r: int|
            last_row_of(schema, headers, rows, null_tokens, k, r)) && (forall|r: int| #[trigger]
            last_row_of(schema, headers, rows, null_tokens, k, r) ==> accounts[k] == account_cells(
                schema.attrs,
                headers,
                rows[r],
                null_tokens,
            )),
    decreases rows.len(),
{
    if accounts_of(schema, source, headers, rows, null_tokens, strict) is Ok && rows.len() > 0 {
        let p = rows.drop_last();
        let last = rows.len() - 1;
        lemma_month_holds_rows(schema, source, headers, p, null_tokens, strict, k);
        let accounts = accounts_of(schema, source, headers, rows, null_tokens, strict)->Ok_0;
        let here = !util::null(cell_under(headers, rows[last], schema.key.header), null_tokens)
            && cell_under(headers, rows[last], schema.key.header) == k;
        if here {
            assert(last_row_of(schema, headers, rows, null_tokens, k, last));
            assert forall|r: int| #[trigger]
                last_row_of(schema, headers, rows, null_tokens, k, r) implies r == last by {
                if r < last {
                    assert(names_account(schema, headers, rows[last], null_tokens, k));
                }
            }
        } else {
            assert forall|r: int|
                last_row_of(schema, headers, rows, null_tokens, k, r) <==> last_row_of(
                    schema,
                    headers,
                    p,
                    null_tokens,
                    k,
                    r,
                ) by {
                assert(forall|i: int| 0 <= i < last ==> #[trigger] p[i] == rows[i]);
                if last_row_of(schema, headers, p, null_tokens, k, r) {
                    assert forall|s: int| r < s < rows.len() implies !names_account(
                        schema,
                        headers,
                        #[trigger] rows[s],
                        null_tokens,
                        k,
                    ) by {
                        if s < last {
                            assert(p[s] == rows[s]);
                        }
                    }
                }
                if last_row_of(schema, headers, rows, null_tokens, k, r) {
                    assert(r != last);
                    assert forall|s: int| r < s < p.len() implies !names_account(
                        schema,
                        headers,
                        #[trigger] p[s],
                        null_tokens,
                        k,
                    ) by {
                        assert(p[s] == rows[s]);
                    }
                }
            }
            if accounts.contains_key(k) {
                let r = choose|r: int| last_row_of(schema, headers, p, null_tokens, k, r);
                assert(last_row_of(schema, headers, rows, null_tokens, k, r));
            }
            if exists|r: int| last_row_of(schema, headers, rows, null_tokens, k, r) {
                let r = choose|r: int| last_row_of(schema, headers, rows, null_tokens, k, r);
                assert(last_row_of(schema, headers, p, null_tokens, k, r));
            }
        }
    }
}

/// Whether a row is about an account.
pub open spec fn names_account(
    schema: SchemaFacts,
    headers: Seq<Seq<char>>,
    row: Seq<Seq<char>>,
    null_tokens: Seq<Seq<char>>,
    k: Seq<char>,
) -> bool {
    cell_under(headers, row, schema.key.header) == k && !util::null(k, null_tokens)
}

/// Whether a row is the last one about an account.
pub open spec fn last_row_of(
    schema: SchemaFacts,
    headers: Seq<Seq<char>>,
    rows: Seq<Seq<Seq<char>>>,
    null_tokens: Seq<Seq<char>>,
    k: Seq<char>,
    r: int,
) -> bool {
    &&& 0 <= r < rows.len()
    &&& names_account(schema, headers, rows[r], null_tokens, k)
    &&& forall|s: int|
        r < s < rows.len() ==> !names_account(schema, headers, #[trigger] rows[s], null_tokens, k)
}

/// A strict reading accepts no row without an account key, and names the file
/// of the first one; a lenient reading leaves such rows out and goes on.
pub proof fn lemma_blank_keys(
    schema: SchemaFacts,
    source: Seq<char>,
    headers: Seq<Seq<char>>,
    rows: Seq<Seq<Seq<char>>>,
    null_tokens: Seq<Seq<char>>,
)
    ensures
        accounts_of(schema, source, headers, rows, null_tokens, false) is Ok,
        match accounts_of(schema, source, headers, rows, null_tokens, true) {
            Ok(accounts) => {
                &&& forall|r: int|
                    0 <= r < rows.len() ==> !util::null(
                        cell_under(headers, #[trigger] rows[r], schema.key.header),
                        null_tokens,
                    )
                &&& accounts_of(schema, source, headers, rows, null_tokens, false) == Ok::<
                    Accounts,
                    Fault,
                >(accounts)
            },
            Err(fault) => exists|r: int|
                0 <= r < rows.len() && util::null(
                    cell_under(headers, #[trigger] rows[r], schema.key.header),
                    null_tokens,
                ) && fault == blank_key(source, r as nat, schema.key.header),
        },
    decreases rows.len(),
{
    if rows.len() > 0 {
        let p = rows.drop_last();
        let last = rows.len() - 1;
        lemma_blank_keys(schema, source, headers, p, null_tokens);
        match accounts_of(schema, source, headers, p, null_tokens, true) {
            Ok(_) => {
                if util::null(cell_under(headers, rows[last], schema.key.header), null_tokens) {
                    assert(blank_key(source, last as nat, schema.key.header) == accounts_of(
                        schema,
                        source,
                        headers,
                        rows,
                        null_tokens,
                        true,
                    )->Err_0);
                } else {
                    assert forall|r: int| 0 <= r < rows.len() implies !util::null(
                        cell_under(headers, #[trigger] rows[r], schema.key.header),
                        null_tokens,
                    ) by {
                        if r < last {
                            assert(p[r] == rows[r]);
                        }
                    }
                }
            },
            Err(fault) => {
                let r = choose|r: int|
                    0 <= r < p.len() && util::null(
                        cell_under(headers, #[trigger] p[r], schema.key.header),
                        null_tokens,
                    ) && fault == blank_key(source, r as nat, schema.key.header);
                assert(p[r] == rows[r]);
            },
        }
    }
}

/// The cell under a header is that at the first place where the header stands,
/// and an empty one where it stands nowhere.
pub proof fn lemma_cell_under(
    headers: Seq<Seq<char>>,
    row: Seq<Seq<char>>,
    h: Seq<char>,
    i: int,
)
    requires
        0 <= i <= headers.len(),
        forall|j: int| 0 <= j < i ==> #[trigger] headers[j] != h,
        i < headers.len() ==> headers[i] == h,
    ensures
        cell_under(headers, row, h) == if i < headers.len() && i < row.len() {
            row[i]
        } else {
            Seq::<char>::empty()
        },
{
    lemma_position_first(headers, h, i);
}

proof fn lemma_position_first(headers: Seq<Seq<char>>, h: Seq<char>, i: int)
    requires
        0 <= i <= headers.len(),
        forall|j: int| 0 <= j < i ==> #[trigger] headers[j] != h,
        i < headers.len() ==> headers[i] == h,
    ensures
        position(headers, h) == if i < headers.len() {
            Some(i)
        } else {
            None
        },
    decreases headers.len(),
{
    if headers.len() > 0 {
        let p = headers.drop_last();
        assert forall|j: int| 0 <= j < i && j < p.len() implies #[trigger] p[j] != h by {
            assert(p[j] == headers[j]);
        }
        if i < p.len() {
            lemma_position_first(p, h, i);
        } else {
            lemma_position_first(p, h, p.len() as int);
            assert(i == headers.len() ==> headers[headers.len() - 1] != h);
        }
    }
}

/// An account has one cell for each attribute, the one under the attribute's
/// own header.
pub proof fn lemma_account_cells(
    attrs: Seq<ColumnFacts>,
    headers: Seq<Seq<char>>,
    row: Seq<Seq<char>>,
    null_tokens: Seq<Seq<char>>,
    a: int,
)
    requires
        0 <= a < attrs.len(),
    ensures
        account_cells(attrs, headers, row, null_tokens).len() == attrs.len(),
        account_cells(attrs, headers, row, null_tokens)[a] == util::cell(
            cell_under(headers, row, attrs[a].header),
            null_tokens,
        ),
{
}

/// A row without an account key is reported with its file, its line and the
/// key's header.
pub proof fn lemma_blank_key(source: Seq<char>, row: nat, key: Seq<char>)
    ensures
        blank_key(source, row, key) == (Fault::Data {
            source,
            message: "row "@ + text::decimal(row + 2) + ": empty key column `"@ + key + "`"@,
        }),
{
}

/// A month has the name and instant of its file and the accounts of its rows;
/// what is wrong with a row comes before what is wrong with a later record.
pub proof fn lemma_month(
    schema: SchemaFacts,
    source: Seq<char>,
    at: Seq<char>,
    g: Grid,
    null_tokens: Seq<Seq<char>>,
    strict: bool,
)
    ensures
        match accounts_of(schema, source, g.headers, g.rows, null_tokens, strict) {
            Err(fault) => month_of(schema, source, at, g, null_tokens, strict) == Err::<
                Month,
                Fault,
            >(fault),
            Ok(values) => match g.fault {
                Some(flaw) => month_of(schema, source, at, g, null_tokens, strict) == Err::<
                    Month,
                    Fault,
                >(infer::row_fault(source, g.rows.len(), flaw)),
                None => month_of(schema, source, at, g, null_tokens, strict) == Ok::<Month, Fault>(
                    Month { source, at, values },
                ),
            },
        },
{
}

/// The months are read in order, each out of its own file, up to the first
/// file that is at fault.
pub proof fn lemma_months_step(
    schema: SchemaFacts,
    files: Seq<SourceFile>,
    file: SourceFile,
    null_tokens: Seq<Seq<char>>,
    strict: bool,
)
    ensures
        months_of(schema, seq![], null_tokens, strict) == Ok::<Seq<Month>, Fault>(seq![]),
        match months_of(schema, files, null_tokens, strict) {
            Err(fault) => months_of(schema, files.push(file), null_tokens, strict) == Err::<
                Seq<Month>,
                Fault,
            >(fault),
            Ok(ms) => match table::grid_of(file.bytes@, !strict) {
                Err(fault) => months_of(schema, files.push(file), null_tokens, strict) == Err::<
                    Seq<Month>,
                    Fault,
                >(fault),
                Ok(g) => match month_of(
                    schema,
                    file.entry.source@,
                    file.entry.at@,
                    g,
                    null_tokens,
                    strict,
                ) {
                    Err(fault) => months_of(schema, files.push(file), null_tokens, strict) == Err::<
                        Seq<Month>,
                        Fault,
                    >(fault),
                    Ok(m) => months_of(schema, files.push(file), null_tokens, strict) == Ok::<
                        Seq<Month>,
                        Fault,
                    >(ms.push(m)),
                },
            },
        },
{
    assert(files.push(file).drop_last() =~= files);
}

/// A value is shown as it is, and a missing one by a sign of its own.
pub proof fn lemma_rendered(v: Seq<char>)
    ensures
        rendered(Some(v)) == v,
        rendered(None) == "∅"@,
{
}

/// The changes listed for an attribute between two months are those of the
/// accounts of both months whose cells differ, in key order, each with its
/// cell of the earlier and of the later month.
pub proof fn lemma_changes_listed(prev: Accounts, cur: Accounts, n_attr: nat, a: int)
    requires
        prev.dom().finite(),
        0 <= a < n_attr,
    ensures
        ({
            let list = diff_of(prev, cur, n_attr).changes[a];
            &&& forall|i: int|
                0 <= i < list.len() ==> {
                    let k = (#[trigger] list[i]).key;
                    &&& prev.contains_key(k)
                    &&& cur.contains_key(k)
                    &&& prev[k][a] != cur[k][a]
                    &&& list[i].old_cell == rendered(prev[k][a])
                    &&& list[i].new_cell == rendered(cur[k][a])
                }
            &&& forall|k: Seq<char>|
                prev.contains_key(k) && #[trigger] cur.contains_key(k) && prev[k][a] != cur[k][a]
                    ==> exists|i: int| 0 <= i < list.len() && (#[trigger] list[i]).key == k
            &&& forall|i: int, j: int|
                0 <= i < j < list.len() ==> order::precedes(
                    (#[trigger] list[i]).key,
                    (#[trigger] list[j]).key,
                )
        }),
        diff_of(prev, cur, n_attr).changes.len() == n_attr,
{
    lemma_changes_exact(prev, cur, a);
    let list = diff_of(prev, cur, n_attr).changes[a];
    assert(list == changes_of(prev, cur, a));
    let keys = Seq::new(list.len(), |i: int| list[i].key);
    assert(keys =~= order::ordered(changed_keys(prev, cur, a)));
    assert forall|i: int| 0 <= i < list.len() implies {
        let k = (#[trigger] list[i]).key;
        &&& prev.contains_key(k)
        &&& cur.contains_key(k)
        &&& prev[k][a] != cur[k][a]
        &&& list[i].old_cell == rendered(prev[k][a])
        &&& list[i].new_cell == rendered(cur[k][a])
    } by {
        assert(keys.to_set().contains(keys[i]));
        assert(changed_keys(prev, cur, a).contains(list[i].key));
    }
    assert forall|k: Seq<char>|
        prev.contains_key(k) && #[trigger] cur.contains_key(k) && prev[k][a]
            != cur[k][a] implies exists|i: int|
        0 <= i < list.len() && (#[trigger] list[i]).key == k by {
        assert(changed_keys(prev, cur, a).contains(k));
        assert(keys.to_set().contains(k));
        let i = choose|i: int| 0 <= i < keys.len() && keys[i] == k;
        assert(list[i].key == k);
    }
    assert forall|i: int, j: int| 0 <= i < j < list.len() implies order::precedes(
        (#[trigger] list[i]).key,
        (#[trigger] list[j]).key,
    ) by {
        assert(order::precedes(keys[i], keys[j]));
    }
}

/// What the counts of a step count: the accounts of the later month that the
/// earlier lacks, those of the earlier that the later lacks, those of both
/// with different cells, and the listed changes of all attributes.
pub proof fn lemma_step_counts(
    prev: Accounts,
    cur: Accounts,
    n_attr: nat,
    added: Set<Seq<char>>,
    removed: Set<Seq<char>>,
    changed: Set<Seq<char>>,
)
    requires
        forall|k: Seq<char>| #[trigger]
            added.contains(k) <==> cur.contains_key(k) && !prev.contains_key(k),
        forall|k: Seq<char>| #[trigger]
            removed.contains(k) <==> prev.contains_key(k) && !cur.contains_key(k),
        forall|k: Seq<char>| #[trigger]
            changed.contains(k) <==> prev.contains_key(k) && cur.contains_key(k) && prev[k]
                != cur[k],
    ensures
        diff_of(prev, cur, n_attr).added == added.len(),
        diff_of(prev, cur, n_attr).removed == removed.len(),
        diff_of(prev, cur, n_attr).changed_accounts == changed.len(),
        prev.dom().finite() ==> diff_of(prev, cur, n_attr).changed_cells == sum_lens(
            diff_of(prev, cur, n_attr).changes,
        ),
{
    assert(added =~= cur.dom().difference(prev.dom()));
    assert(removed =~= prev.dom().difference(cur.dom()));
    assert(changed =~= changed_accounts(prev, cur));
    if prev.dom().finite() {
        lemma_cells_sum(prev, cur, n_attr);
    }
}

/// How many changes some lists hold in all.
pub open spec fn sum_lens(lists: Seq<Seq<ChangeFacts>>) -> nat
    decreases lists.len(),
{
    if lists.len() == 0 {
        0
    } else {
        sum_lens(lists.drop_last()) + lists.last().len()
    }
}

proof fn lemma_cells_sum(prev: Accounts, cur: Accounts, n_attr: nat)
    requires
        prev.dom().finite(),
    ensures
        changed_cells(prev, cur, n_attr) == sum_lens(diff_of(prev, cur, n_attr).changes),
    decreases n_attr,
{
    if n_attr > 0 {
        let n = (n_attr - 1) as nat;
        lemma_cells_sum(prev, cur, n);
        lemma_changes_exact(prev, cur, n as int);
        assert(diff_of(prev, cur, n_attr).changes.drop_last() =~= diff_of(prev, cur, n).changes);
    }
}

/// A strict reading is refused at the first row without an account key.
pub proof fn lemma_first_blank_key(
    schema: SchemaFacts,
    source: Seq<char>,
    headers: Seq<Seq<char>>,
    rows: Seq<Seq<Seq<char>>>,
    null_tokens: Seq<Seq<char>>,
    r: int,
)
    requires
        0 <= r < rows.len(),
        util::null(cell_under(headers, rows[r], schema.key.header), null_tokens),
        forall|q: int|
            0 <= q < r ==> !util::null(
                cell_under(headers, #[trigger] rows[q], schema.key.header),
                null_tokens,
            ),
    ensures
        accounts_of(schema, source, headers, rows, null_tokens, true) == Err::<Accounts, Fault>(
            blank_key(source, r as nat, schema.key.header),
        ),
{
    let upto = rows.take(r + 1);
    let before = rows.take(r);
    assert(upto.drop_last() =~= before);
    assert(upto.last() == rows[r]);
    lemma_blank_keys(schema, source, headers, before, null_tokens);
    if accounts_of(schema, source, headers, before, null_tokens, true) is Err {
        let q = choose|q: int|
            0 <= q < before.len() && util::null(
                cell_under(headers, #[trigger] before[q], schema.key.header),
                null_tokens,
            );
        assert(before[q] == rows[q]);
    }
    lemma_accounts_prefix(schema, source, headers, rows, null_tokens, true, r + 1);
}

} // verus!
